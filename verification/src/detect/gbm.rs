//! Inference for a flattened gradient-boosted tree ensemble.
//!
//! Every tree of the ensemble is a run of nodes in one long list, with
//! `tree_offsets` marking where each starts. Prediction walks down from the
//! first node of each tree and adds the leaf value into that tree's class
//! channel.

use crate::detect::error::PhraseError;
use crate::detect::npz::{first_unfit, flags, is_field_error, numbers, places, Npy, Npz};
use crate::number::laws::{
    law_adding_never_lowers, law_addition_commutes, law_addition_keeps_the_order, law_division_keeps_the_order,
    law_larger_divisors_give_no_more,
};
use crate::number::lists::{highest, total, total_of};
use crate::number::binary64::{
    difference, larger, minus_infinity, nano, negated, one, quotient, sum, zero, Binary64, NAN_BITS,
};
use crate::text::{copy_text, decimal, push_decimal, signed_decimal, views};
use vstd::prelude::*;
use vstd::slice::slice_to_vec;

verus! {

/// A flattened gradient-boosted ensemble, ready for prediction.
#[derive(Debug, Clone)]
pub struct HistGradientBoosting {
    /// Class labels, in the order the raw score columns are laid out.
    pub classes: Vec<String>,
    /// Per-class starting score, before any tree contributes.
    pub baseline: Vec<Binary64>,
    /// Which class channel each tree adds into.
    pub tree_classes: Vec<usize>,
    /// `tree_offsets[i]..tree_offsets[i+1]` are tree `i`'s nodes.
    pub tree_offsets: Vec<usize>,
    pub value: Vec<Binary64>,
    pub feature_idx: Vec<usize>,
    pub threshold: Vec<Binary64>,
    pub missing_go_to_left: Vec<bool>,
    pub left: Vec<usize>,
    pub right: Vec<usize>,
    pub is_leaf: Vec<bool>,
}

/// Why an ensemble cannot be read from an archive.
pub enum LoadFault {
    /// There is no array of this name.
    Missing(Seq<char>),
    /// The array of this name cannot be used, and why.
    Unusable(Seq<char>, Seq<char>),
    /// The model has this layout, and not the expected one.
    Layout(Seq<char>, Seq<char>),
}

/// Whether an error reports a fault.
pub open spec fn reports(e: PhraseError, fault: LoadFault) -> bool {
    match fault {
        LoadFault::Missing(name) => e matches PhraseError::MissingModelField(f) && f@ == name,
        LoadFault::Unusable(name, why) => is_field_error(e, name, why),
        LoadFault::Layout(layout, wanted) => e matches PhraseError::UnsupportedModelFormat { found, expected }
            && found@ == layout && expected@ == wanted,
    }
}

/// What an array is used as.
pub enum Use {
    Texts,
    Numbers,
    Places,
    Flags,
}

/// Why the array of a name cannot be used so.
pub open spec fn field_fault(archive: Map<Seq<char>, Npy>, name: Seq<char>, as_what: Use) -> Option<LoadFault> {
    if !archive.contains_key(name) {
        Some(LoadFault::Missing(name))
    } else {
        match (as_what, archive[name]) {
            (Use::Texts, Npy::Str(_)) => None,
            (Use::Texts, _) => Some(LoadFault::Unusable(name, "expected a string array"@)),
            (Use::Numbers, Npy::Str(_)) => Some(
                LoadFault::Unusable(name, "expected a numeric array, found strings"@),
            ),
            (Use::Numbers, _) => None,
            (Use::Places, Npy::Str(_)) => Some(LoadFault::Unusable(name, "expected an index array, found strings"@)),
            (Use::Places, Npy::I64(v)) => match first_unfit(v) {
                Some(x) => Some(LoadFault::Unusable(name, "negative index "@ + signed_decimal(x as int))),
                None => None,
            },
            (Use::Places, _) => None,
            (Use::Flags, Npy::Str(_)) => Some(LoadFault::Unusable(name, "expected flags, found strings"@)),
            (Use::Flags, _) => None,
        }
    }
}

/// The first of two faults.
pub open spec fn first_of(a: Option<LoadFault>, b: Option<LoadFault>) -> Option<LoadFault> {
    if a is Some {
        a
    } else {
        b
    }
}

/// The name of an array of the ensemble stored under `prefix`.
pub open spec fn field_name(prefix: Seq<char>, suffix: Seq<char>) -> Seq<char> {
    prefix.push('_') + suffix
}

/// Why the arrays of an ensemble cannot be read.
pub open spec fn arrays_fault(archive: Map<Seq<char>, Npy>, prefix: Seq<char>) -> Option<LoadFault> {
    first_of(
        field_fault(archive, field_name(prefix, "classes"@), Use::Texts),
        first_of(
            field_fault(archive, field_name(prefix, "baseline"@), Use::Numbers),
            first_of(
                field_fault(archive, field_name(prefix, "tree_classes"@), Use::Places),
                first_of(
                    field_fault(archive, field_name(prefix, "tree_offsets"@), Use::Places),
                    first_of(
                        field_fault(archive, field_name(prefix, "node_value"@), Use::Numbers),
                        nodes_fault(archive, prefix),
                    ),
                ),
            ),
        ),
    )
}

/// Why the node arrays behind the values cannot be read.
pub open spec fn nodes_fault(archive: Map<Seq<char>, Npy>, prefix: Seq<char>) -> Option<LoadFault> {
    first_of(
        field_fault(archive, field_name(prefix, "node_feature_idx"@), Use::Places),
        first_of(
            field_fault(archive, field_name(prefix, "node_num_threshold"@), Use::Numbers),
            first_of(
                field_fault(archive, field_name(prefix, "node_missing_go_to_left"@), Use::Flags),
                first_of(
                    field_fault(archive, field_name(prefix, "node_left"@), Use::Places),
                    first_of(
                        field_fault(archive, field_name(prefix, "node_right"@), Use::Places),
                        field_fault(archive, field_name(prefix, "node_is_leaf"@), Use::Flags),
                    ),
                ),
            ),
        ),
    )
}

/// Whether an ensemble is made of the arrays stored under `prefix`.
pub open spec fn is_stored(archive: Map<Seq<char>, Npy>, prefix: Seq<char>, m: HistGradientBoosting) -> bool {
    &&& Npy::Str(views(m.classes@)) == archive[field_name(prefix, "classes"@)]
    &&& m.baseline@ == numbers(archive[field_name(prefix, "baseline"@)])
    &&& m.tree_classes@ == places(archive[field_name(prefix, "tree_classes"@)])
    &&& m.tree_offsets@ == places(archive[field_name(prefix, "tree_offsets"@)])
    &&& m.value@ == numbers(archive[field_name(prefix, "node_value"@)])
    &&& m.feature_idx@ == places(archive[field_name(prefix, "node_feature_idx"@)])
    &&& m.threshold@ == numbers(archive[field_name(prefix, "node_num_threshold"@)])
    &&& m.missing_go_to_left@ == flags(archive[field_name(prefix, "node_missing_go_to_left"@)])
    &&& m.left@ == places(archive[field_name(prefix, "node_left"@)])
    &&& m.right@ == places(archive[field_name(prefix, "node_right"@)])
    &&& m.is_leaf@ == flags(archive[field_name(prefix, "node_is_leaf"@)])
}

/// A node array of another length than the values is unusable.
pub open spec fn length_fault(name: Seq<char>, len: nat, nodes: nat) -> Option<LoadFault> {
    if len != nodes {
        Some(LoadFault::Unusable(name, "has "@ + decimal(len) + " nodes but node_value has "@ + decimal(nodes)))
    } else {
        None
    }
}

/// The first entry that is not below `limit`.
pub open spec fn first_above(v: Seq<usize>, limit: nat) -> Option<usize>
    decreases v.len(),
{
    if v.len() == 0 {
        None
    } else {
        match first_above(v.drop_last(), limit) {
            Some(x) => Some(x),
            None => if v.last() >= limit {
                Some(v.last())
            } else {
                None
            },
        }
    }
}

/// How many entries the array of a name has.
pub open spec fn entries(archive: Map<Seq<char>, Npy>, prefix: Seq<char>, suffix: Seq<char>) -> nat {
    match archive[field_name(prefix, suffix)] {
        Npy::F64(v) => v.len(),
        Npy::I64(v) => v.len(),
        Npy::U8(v) => v.len(),
        Npy::Str(v) => v.len(),
    }
}

/// Why arrays that can be read do not fit together.
pub open spec fn shape_fault(archive: Map<Seq<char>, Npy>, prefix: Seq<char>) -> Option<LoadFault> {
    let nodes = entries(archive, prefix, "node_value"@);
    first_of(
        length_fault(field_name(prefix, "node_feature_idx"@), entries(archive, prefix, "node_feature_idx"@), nodes),
        first_of(
            length_fault(field_name(prefix, "node_num_threshold"@), entries(archive, prefix, "node_num_threshold"@), nodes),
            first_of(
                length_fault(
                    field_name(prefix, "node_missing_go_to_left"@),
                    entries(archive, prefix, "node_missing_go_to_left"@),
                    nodes,
                ),
                first_of(
                    length_fault(field_name(prefix, "node_left"@), entries(archive, prefix, "node_left"@), nodes),
                    first_of(
                        length_fault(field_name(prefix, "node_right"@), entries(archive, prefix, "node_right"@), nodes),
                        first_of(
                            length_fault(
                                field_name(prefix, "node_is_leaf"@),
                                entries(archive, prefix, "node_is_leaf"@),
                                nodes,
                            ),
                            trees_fault(
                                prefix,
                                places(archive[field_name(prefix, "tree_classes"@)]),
                                places(archive[field_name(prefix, "tree_offsets"@)]),
                                nodes,
                                entries(archive, prefix, "baseline"@),
                            ),
                        ),
                    ),
                ),
            ),
        ),
    )
}

/// Why the tree arrays do not fit the node arrays.
pub open spec fn trees_fault(
    prefix: Seq<char>,
    classes: Seq<usize>,
    offsets: Seq<usize>,
    nodes: nat,
    channels: nat,
) -> Option<LoadFault> {
    let trees = classes.len();
    if offsets.len() != trees + 1 {
        Some(
            LoadFault::Unusable(
                field_name(prefix, "tree_offsets"@),
                "has "@ + decimal(offsets.len()) + " entries; "@ + decimal(trees) + " trees need "@ + decimal(trees + 1),
            ),
        )
    } else if offsets.last() > nodes {
        Some(LoadFault::Unusable(field_name(prefix, "tree_offsets"@), "runs past the end of the node arrays"@))
    } else {
        match first_above(classes, channels) {
            Some(class) => Some(
                LoadFault::Unusable(
                    field_name(prefix, "tree_classes"@),
                    "class "@ + decimal(class as nat) + " has no baseline entry"@,
                ),
            ),
            None => None,
        }
    }
}

/// Why no ensemble can be loaded.
pub open spec fn load_fault(archive: Map<Seq<char>, Npy>, prefix: Seq<char>) -> Option<LoadFault> {
    first_of(arrays_fault(archive, prefix), shape_fault(archive, prefix))
}

impl HistGradientBoosting {
    /// Whether the arrays fit together.
    pub open spec fn fits(self) -> bool {
        &&& self.feature_idx@.len() == self.value@.len()
        &&& self.threshold@.len() == self.value@.len()
        &&& self.missing_go_to_left@.len() == self.value@.len()
        &&& self.left@.len() == self.value@.len()
        &&& self.right@.len() == self.value@.len()
        &&& self.is_leaf@.len() == self.value@.len()
        &&& self.tree_offsets@.len() == self.tree_classes@.len() + 1
        &&& forall|i: int| 0 <= i < self.tree_classes@.len() ==> #[trigger] self.tree_classes@[i] < self.baseline@.len()
    }

    /// Whether every tree has nodes of its own to walk.
    pub open spec fn ready(self) -> bool {
        &&& self.fits()
        &&& forall|i: int|
            0 <= i < self.tree_classes@.len() ==> #[trigger] self.tree_offsets@[i] <= self.tree_offsets@[i + 1]
                && self.tree_offsets@[i] < self.value@.len() && self.tree_offsets@[i + 1] <= self.value@.len()
    }
}

pub(crate) fn load_texts(archive: &Npz, name: &str) -> (r: Result<Vec<String>, PhraseError>)
    ensures
        r is Ok <==> field_fault(archive@, name@, Use::Texts) is None,
        r is Ok ==> Npy::Str(views(r->Ok_0@)) == archive@[name@],
        r is Err ==> reports(r->Err_0, field_fault(archive@, name@, Use::Texts)->0),
{
    match archive.get(name) {
        Some(array) => array.to_strings(name),
        None => Err(PhraseError::MissingModelField(copy_text(name))),
    }
}

pub(crate) fn load_number_list(archive: &Npz, name: &str) -> (r: Result<Vec<Binary64>, PhraseError>)
    ensures
        r is Ok <==> field_fault(archive@, name@, Use::Numbers) is None,
        r is Ok ==> r->Ok_0@ == numbers(archive@[name@]),
        r is Err ==> reports(r->Err_0, field_fault(archive@, name@, Use::Numbers)->0),
{
    match archive.get(name) {
        Some(array) => array.to_f64(name),
        None => Err(PhraseError::MissingModelField(copy_text(name))),
    }
}

fn load_place_list(archive: &Npz, name: &str) -> (r: Result<Vec<usize>, PhraseError>)
    ensures
        r is Ok <==> field_fault(archive@, name@, Use::Places) is None,
        r is Ok ==> r->Ok_0@ == places(archive@[name@]),
        r is Err ==> reports(r->Err_0, field_fault(archive@, name@, Use::Places)->0),
{
    match archive.get(name) {
        Some(array) => array.to_usize(name),
        None => Err(PhraseError::MissingModelField(copy_text(name))),
    }
}

fn load_flag_list(archive: &Npz, name: &str) -> (r: Result<Vec<bool>, PhraseError>)
    ensures
        r is Ok <==> field_fault(archive@, name@, Use::Flags) is None,
        r is Ok ==> r->Ok_0@ == flags(archive@[name@]),
        r is Err ==> reports(r->Err_0, field_fault(archive@, name@, Use::Flags)->0),
{
    match archive.get(name) {
        Some(array) => array.to_bool(name),
        None => Err(PhraseError::MissingModelField(copy_text(name))),
    }
}

fn name_of(prefix: &str, suffix: &str) -> (r: String)
    ensures
        r@ == field_name(prefix@, suffix@),
{
    let mut out: String = copy_text(prefix);
    out.push('_');
    out.push_str(suffix);
    out
}

fn check_length(prefix: &str, suffix: &str, len: usize, nodes: usize) -> (r: Result<(), PhraseError>)
    ensures
        r is Ok <==> length_fault(field_name(prefix@, suffix@), len as nat, nodes as nat) is None,
        r is Err ==> reports(r->Err_0, length_fault(field_name(prefix@, suffix@), len as nat, nodes as nat)->0),
{
    if len != nodes {
        let mut why: String = copy_text("has ");
        push_decimal(&mut why, len as u64);
        why.push_str(" nodes but node_value has ");
        push_decimal(&mut why, nodes as u64);
        return Err(PhraseError::ModelField { field: name_of(prefix, suffix), reason: why });
    }
    Ok(())
}

/// The first entry that is not below `limit`.
fn find_above(v: &Vec<usize>, limit: usize) -> (r: Option<usize>)
    ensures
        r == first_above(v@, limit as nat),
        r is None ==> forall|i: int| 0 <= i < v@.len() ==> #[trigger] v@[i] < limit,
{
    let mut i: usize = 0;
    while i < v.len()
        invariant
            i <= v@.len(),
            first_above(v@.take(i as int), limit as nat) is None,
            forall|j: int| 0 <= j < i ==> #[trigger] v@[j] < limit,
        decreases v@.len() - i,
    {
        assert(v@.take(i + 1).drop_last() =~= v@.take(i as int));
        if v[i] >= limit {
            proof {
                lemma_first_above_stays(v@, limit as nat, i as int);
            }
            return Some(v[i]);
        }
        i = i + 1;
    }
    assert(v@.take(v@.len() as int) =~= v@);
    None
}

proof fn lemma_first_above_stays(v: Seq<usize>, limit: nat, i: int)
    requires
        0 <= i < v.len(),
        first_above(v.take(i + 1), limit) is Some,
    ensures
        first_above(v, limit) == first_above(v.take(i + 1), limit),
    decreases v.len() - i,
{
    if i + 1 == v.len() {
        assert(v.take(i + 1) =~= v);
    } else {
        assert(v.drop_last().take(i + 1) =~= v.take(i + 1));
        lemma_first_above_stays(v.drop_last(), limit, i);
    }
}

/// Why the tree arrays do not fit the node arrays.
fn check_trees(prefix: &str, m: &HistGradientBoosting) -> (r: Result<(), PhraseError>)
    ensures
        r is Ok <==> trees_fault(prefix@, m.tree_classes@, m.tree_offsets@, m.value@.len(), m.baseline@.len()) is None,
        r is Ok ==> forall|i: int| 0 <= i < m.tree_classes@.len() ==> #[trigger] m.tree_classes@[i] < m.baseline@.len(),
        r is Err ==> reports(r->Err_0, trees_fault(prefix@, m.tree_classes@, m.tree_offsets@, m.value@.len(), m.baseline@.len())->0),
{
    let trees: usize = m.tree_classes.len();
    if m.tree_offsets.len() == 0 || m.tree_offsets.len() - 1 != trees {
        let mut why: String = copy_text("has ");
        push_decimal(&mut why, m.tree_offsets.len() as u64);
        why.push_str(" entries; ");
        push_decimal(&mut why, trees as u64);
        why.push_str(" trees need ");
        let need: String = text_of_successor(trees);
        why.push_str(need.as_str());
        return Err(PhraseError::ModelField { field: name_of(prefix, "tree_offsets"), reason: why });
    }
    if m.tree_offsets[m.tree_offsets.len() - 1] > m.value.len() {
        return Err(
            PhraseError::ModelField {
                field: name_of(prefix, "tree_offsets"),
                reason: copy_text("runs past the end of the node arrays"),
            },
        );
    }
    match find_above(&m.tree_classes, m.baseline.len()) {
        Some(class) => {
            let mut why: String = copy_text("class ");
            push_decimal(&mut why, class as u64);
            why.push_str(" has no baseline entry");
            Err(PhraseError::ModelField { field: name_of(prefix, "tree_classes"), reason: why })
        },
        None => Ok(()),
    }
}

/// The number behind `n`, in decimal.
fn text_of_successor(n: usize) -> (r: String)
    ensures
        r@ == decimal((n + 1) as nat),
{
    let next: u128 = n as u128 + 1;
    let mut out: String = String::new();
    if next >= 10 {
        push_decimal(&mut out, (next / 10) as u64);
    }
    out.push((48 + (next % 10) as u8) as char);
    assert(out@ =~= decimal(next as nat));
    out
}

impl HistGradientBoosting {
    /// Loads the ensemble stored under `prefix`.
    pub fn from_npz(archive: &Npz, prefix: &str) -> (r: Result<Self, PhraseError>)
        ensures
            r is Err <==> load_fault(archive@, prefix@) is Some,
            r is Err ==> reports(r->Err_0, load_fault(archive@, prefix@)->0),
            r is Ok ==> is_stored(archive@, prefix@, r->Ok_0) && r->Ok_0.fits(),
    {
        let classes: Vec<String> = load_texts(archive, name_of(prefix, "classes").as_str())?;
        let baseline: Vec<Binary64> = load_number_list(archive, name_of(prefix, "baseline").as_str())?;
        let tree_classes: Vec<usize> = load_place_list(archive, name_of(prefix, "tree_classes").as_str())?;
        let tree_offsets: Vec<usize> = load_place_list(archive, name_of(prefix, "tree_offsets").as_str())?;
        let value: Vec<Binary64> = load_number_list(archive, name_of(prefix, "node_value").as_str())?;
        let feature_idx: Vec<usize> = load_place_list(archive, name_of(prefix, "node_feature_idx").as_str())?;
        let threshold: Vec<Binary64> = load_number_list(archive, name_of(prefix, "node_num_threshold").as_str())?;
        let missing_go_to_left: Vec<bool> = load_flag_list(
            archive,
            name_of(prefix, "node_missing_go_to_left").as_str(),
        )?;
        let left: Vec<usize> = load_place_list(archive, name_of(prefix, "node_left").as_str())?;
        let right: Vec<usize> = load_place_list(archive, name_of(prefix, "node_right").as_str())?;
        let is_leaf: Vec<bool> = load_flag_list(archive, name_of(prefix, "node_is_leaf").as_str())?;
        let m = HistGradientBoosting {
            classes,
            baseline,
            tree_classes,
            tree_offsets,
            value,
            feature_idx,
            threshold,
            missing_go_to_left,
            left,
            right,
            is_leaf,
        };
        assert(is_stored(archive@, prefix@, m));
        let nodes: usize = m.value.len();
        check_length(prefix, "node_feature_idx", m.feature_idx.len(), nodes)?;
        check_length(prefix, "node_num_threshold", m.threshold.len(), nodes)?;
        check_length(prefix, "node_missing_go_to_left", m.missing_go_to_left.len(), nodes)?;
        check_length(prefix, "node_left", m.left.len(), nodes)?;
        check_length(prefix, "node_right", m.right.len(), nodes)?;
        check_length(prefix, "node_is_leaf", m.is_leaf.len(), nodes)?;
        check_trees(prefix, &m)?;
        Ok(m)
    }
}

/// The value of a column of a row; a NaN where the row has no such column.
pub open spec fn cell(row: Seq<Binary64>, column: int) -> Binary64 {
    if column < row.len() {
        row[column]
    } else {
        Binary64 { bits: NAN_BITS }
    }
}

impl HistGradientBoosting {
    /// Where a sample goes from an inner node, counted from the tree's start:
    /// left up to the threshold, by the flag where the value is missing.
    pub open spec fn branch(self, row: Seq<Binary64>, node: int) -> int {
        let sample = cell(row, self.feature_idx@[node] as int);
        if sample.nan() {
            if self.missing_go_to_left@[node] {
                self.left@[node] as int
            } else {
                self.right@[node] as int
            }
        } else if sample.spec_le(self.threshold@[node]) {
            self.left@[node] as int
        } else {
            self.right@[node] as int
        }
    }

    /// The leaf value that a walk from `node` ends at; zero where it leaves the
    /// tree `start..end` or takes more than `budget` steps.
    pub open spec fn walk(self, row: Seq<Binary64>, start: int, end: int, node: int, budget: nat) -> Binary64
        decreases budget,
    {
        if budget == 0 {
            zero()
        } else if self.is_leaf@[node] {
            self.value@[node]
        } else {
            let next = start + self.branch(row, node);
            if next >= end {
                zero()
            } else {
                self.walk(row, start, end, next, (budget - 1) as nat)
            }
        }
    }

    /// What tree `i` adds for a sample.
    pub open spec fn tree_value(self, row: Seq<Binary64>, i: int) -> Binary64 {
        let start = self.tree_offsets@[i] as int;
        let end = self.tree_offsets@[i + 1] as int;
        self.walk(row, start, end, start, (end - start + 1) as nat)
    }

    /// The scores of a sample after the first `trees` trees.
    pub open spec fn scores(self, row: Seq<Binary64>, trees: nat) -> Seq<Binary64>
        decreases trees,
    {
        if trees == 0 {
            self.baseline@
        } else {
            let before = self.scores(row, (trees - 1) as nat);
            let class = self.tree_classes@[trees - 1] as int;
            before.update(class, sum(before[class], self.tree_value(row, trees - 1)))
        }
    }

    /// The raw scores of a sample, one per class channel.
    pub open spec fn raw(self, row: Seq<Binary64>) -> Seq<Binary64> {
        self.scores(row, self.tree_classes@.len())
    }

    /// Whether every tree has nodes of its own to walk.
    pub fn is_ready(&self) -> (r: bool)
        requires
            self.fits(),
        ensures
            r == self.ready(),
    {
        let mut i: usize = 0;
        while i < self.tree_classes.len()
            invariant
                self.fits(),
                i <= self.tree_classes@.len(),
                forall|j: int|
                    0 <= j < i ==> #[trigger] self.tree_offsets@[j] <= self.tree_offsets@[j + 1] && self.tree_offsets@[j]
                        < self.value@.len() && self.tree_offsets@[j + 1] <= self.value@.len(),
            decreases self.tree_classes@.len() - i,
        {
            let start: usize = self.tree_offsets[i];
            let end: usize = self.tree_offsets[i + 1];
            if !(start <= end && start < self.value.len() && end <= self.value.len()) {
                return false;
            }
            i = i + 1;
        }
        true
    }

    /// Number of raw score columns: 1 for binary, one per class otherwise.
    pub fn n_raw(&self) -> (r: usize)
        ensures
            r == self.baseline@.len(),
    {
        self.baseline.len()
    }

    /// Number of classes the probabilities span.
    pub fn n_classes(&self) -> (r: usize)
        ensures
            r == (if self.baseline@.len() == 1 {
                2
            } else {
                self.baseline@.len()
            }),
    {
        if self.n_raw() == 1 {
            2
        } else {
            self.n_raw()
        }
    }

    /// Walks one tree for one sample and returns its leaf value.
    fn predict_tree(&self, row: &[Binary64], start: usize, end: usize) -> (r: Binary64)
        requires
            self.fits(),
            start <= end <= self.value@.len(),
            start < self.value@.len(),
        ensures
            r == self.walk(row@, start as int, end as int, start as int, (end - start + 1) as nat),
    {
        let mut node: usize = start;
        let mut budget: u128 = (end - start) as u128 + 1;
        while budget > 0
            invariant
                self.fits(),
                node < self.value@.len(),
                start <= end <= self.value@.len(),
                self.walk(row@, start as int, end as int, start as int, (end - start + 1) as nat) == self.walk(
                    row@,
                    start as int,
                    end as int,
                    node as int,
                    budget as nat,
                ),
            decreases budget,
        {
            if self.is_leaf[node] {
                return self.value[node];
            }
            let column: usize = self.feature_idx[node];
            let sample: Binary64 = if column < row.len() {
                row[column]
            } else {
                Binary64::from_bits(NAN_BITS)
            };
            let step: usize = if sample.is_nan() {
                if self.missing_go_to_left[node] {
                    self.left[node]
                } else {
                    self.right[node]
                }
            } else if sample.le(self.threshold[node]) {
                self.left[node]
            } else {
                self.right[node]
            };
            if step >= end - start {
                return zero();
            }
            node = start + step;
            budget = budget - 1;
        }
        zero()
    }

    /// Raw scores for one sample, one per class channel.
    pub fn raw_predict_row(&self, row: &[Binary64]) -> (r: Vec<Binary64>)
        requires
            self.ready(),
        ensures
            r@ == self.raw(row@),
            r@.len() == self.baseline@.len(),
    {
        let mut raw: Vec<Binary64> = slice_to_vec(self.baseline.as_slice());
        let mut i: usize = 0;
        while i < self.tree_classes.len()
            invariant
                self.ready(),
                i <= self.tree_classes@.len(),
                raw@ == self.scores(row@, i as nat),
                raw@.len() == self.baseline@.len(),
            decreases self.tree_classes@.len() - i,
        {
            let class: usize = self.tree_classes[i];
            let held: Binary64 = raw[class];
            let added: Binary64 = self.predict_tree(row, self.tree_offsets[i], self.tree_offsets[i + 1]);
            raw.set(class, held.plus(added));
            i = i + 1;
        }
        raw
    }

    /// Predicted class index: `raw > 0` for binary, the first largest above.
    pub fn predict_row(&self, row: &[Binary64]) -> (r: usize)
        requires
            self.ready(),
        ensures
            r == predicted(self.raw(row@)),
    {
        let raw: Vec<Binary64> = self.raw_predict_row(row);
        if raw.len() == 1 {
            return if zero().lt(raw[0]) {
                1
            } else {
                0
            };
        }
        if raw.len() == 0 {
            return 0;
        }
        let mut best: usize = 0;
        let mut i: usize = 1;
        while i < raw.len()
            invariant
                1 <= i <= raw@.len(),
                best < i,
                best == first_largest(raw@, i as nat),
            decreases raw@.len() - i,
        {
            if raw[best].total_lt(raw[i]) {
                best = i;
            }
            i = i + 1;
        }
        best
    }

    /// The predicted class label, as stored in the model.
    pub fn predict_label(&self, row: &[Binary64]) -> (r: &str)
        requires
            self.ready(),
        ensures
            r@ == (if predicted(self.raw(row@)) < self.classes@.len() {
                self.classes@[predicted(self.raw(row@))]@
            } else {
                ""@
            }),
    {
        let index: usize = self.predict_row(row);
        if index < self.classes.len() {
            self.classes[index].as_str()
        } else {
            ""
        }
    }
}

/// The first place of the largest of the first `n` scores.
pub open spec fn first_largest(raw: Seq<Binary64>, n: nat) -> int
    decreases n,
{
    if n <= 1 {
        0
    } else {
        let best = first_largest(raw, (n - 1) as nat);
        if raw[best].total_rank() < raw[n - 1].total_rank() {
            n - 1
        } else {
            best
        }
    }
}

/// The class that raw scores predict.
pub open spec fn predicted(raw: Seq<Binary64>) -> int {
    if raw.len() == 1 {
        if zero().spec_lt(raw[0]) {
            1
        } else {
            0
        }
    } else {
        first_largest(raw, raw.len())
    }
}

/// Fifty: the largest magnitude that goes into an exponential.
#[verifier::allow_in_spec]
pub fn score_limit() -> Binary64
    returns
        (Binary64 { bits: 0x4049_0000_0000_0000 }),
{
    Binary64 { bits: 0x4049_0000_0000_0000 }
}

/// A number cut into `-50..=50`.
pub open spec fn clamped_score(v: Binary64) -> Binary64 {
    if v.spec_lt(negated(score_limit())) {
        negated(score_limit())
    } else if score_limit().spec_lt(v) {
        score_limit()
    } else {
        v
    }
}

/// What goes into the exponential for each score: the negated score of a
/// binary model, the distance from the largest score otherwise.
pub open spec fn exponents(raw: Seq<Binary64>) -> Seq<Binary64> {
    if raw.len() == 1 {
        seq![negated(clamped_score(raw[0]))]
    } else {
        Seq::new(raw.len(), |i: int| clamped_score(difference(raw[i], highest(raw))))
    }
}

/// The probabilities that exponentials make: the logistic function for a
/// binary model, shares of the sum otherwise.
pub open spec fn probabilities(exps: Seq<Binary64>) -> Seq<Binary64> {
    if exps.len() == 1 {
        let p = quotient(one(), sum(one(), exps[0]));
        seq![difference(one(), p), p]
    } else {
        Seq::new(exps.len(), |i: int| quotient(exps[i], larger(total(exps), nano())))
    }
}

fn clamp_score(v: Binary64) -> (r: Binary64)
    ensures
        r == clamped_score(v),
{
    if v.lt(score_limit().negate()) {
        score_limit().negate()
    } else if score_limit().lt(v) {
        score_limit()
    } else {
        v
    }
}

/// What goes into the exponential for each raw score.
pub fn link_exponents(raw: &[Binary64]) -> (r: Vec<Binary64>)
    ensures
        r@ == exponents(raw@),
{
    let mut out: Vec<Binary64> = Vec::new();
    if raw.len() == 1 {
        out.push(clamp_score(raw[0]).negate());
        assert(out@ =~= exponents(raw@));
        return out;
    }
    let mut top: Binary64 = minus_infinity();
    let mut i: usize = 0;
    while i < raw.len()
        invariant
            i <= raw@.len(),
            top == highest(raw@.take(i as int)),
        decreases raw@.len() - i,
    {
        top = top.max(raw[i]);
        assert(raw@.take(i + 1).drop_last() =~= raw@.take(i as int));
        i = i + 1;
    }
    assert(raw@.take(raw@.len() as int) =~= raw@);
    let mut k: usize = 0;
    while k < raw.len()
        invariant
            k <= raw@.len(),
            raw@.len() != 1,
            top == highest(raw@),
            out@ == exponents(raw@).take(k as int),
        decreases raw@.len() - k,
    {
        out.push(clamp_score(raw[k].minus(top)));
        k = k + 1;
        assert(out@ =~= exponents(raw@).take(k as int));
    }
    assert(out@ =~= exponents(raw@));
    out
}

/// The class probabilities that exponentials make.
pub fn link_probabilities(exps: &[Binary64]) -> (r: Vec<Binary64>)
    ensures
        r@ == probabilities(exps@),
{
    let mut out: Vec<Binary64> = Vec::new();
    if exps.len() == 1 {
        let p: Binary64 = one().over(one().plus(exps[0]));
        out.push(one().minus(p));
        out.push(p);
        assert(out@ =~= probabilities(exps@));
        return out;
    }
    let all: Binary64 = total_of(exps).max(nano());
    let mut k: usize = 0;
    while k < exps.len()
        invariant
            k <= exps@.len(),
            exps@.len() != 1,
            all == larger(total(exps@), nano()),
            out@ == probabilities(exps@).take(k as int),
        decreases exps@.len() - k,
    {
        out.push(exps[k].over(all));
        k = k + 1;
        assert(out@ =~= probabilities(exps@).take(k as int));
    }
    assert(out@ =~= probabilities(exps@));
    out
}

proof fn lemma_scores_agree(shorter: HistGradientBoosting, longer: HistGradientBoosting, row: Seq<Binary64>, n: nat)
    requires
        shorter.baseline@ == longer.baseline@,
        n <= shorter.tree_classes@.len() < longer.tree_classes@.len(),
        shorter.tree_classes@ == longer.tree_classes@.take(shorter.tree_classes@.len() as int),
        longer.tree_offsets@.len() > longer.tree_classes@.len(),
        shorter.tree_offsets@ == longer.tree_offsets@.take((shorter.tree_classes@.len() + 1) as int),
        same_nodes(shorter, longer),
    ensures
        shorter.scores(row, n) == longer.scores(row, n),
    decreases n,
{
    if n > 0 {
        lemma_scores_agree(shorter, longer, row, (n - 1) as nat);
        let i = n - 1;
        let start = longer.tree_offsets@[i] as int;
        let end = longer.tree_offsets@[i + 1] as int;
        assert(shorter.tree_offsets@[i] == longer.tree_offsets@[i]);
        assert(shorter.tree_offsets@[i + 1] == longer.tree_offsets@[i + 1]);
        lemma_walks_agree(shorter, longer, row, start, end, start, (end - start + 1) as nat);
        assert(shorter.tree_classes@[i] == longer.tree_classes@[i]);
    }
}

proof fn lemma_walks_agree(
    a: HistGradientBoosting,
    b: HistGradientBoosting,
    row: Seq<Binary64>,
    start: int,
    end: int,
    node: int,
    budget: nat,
)
    requires
        same_nodes(a, b),
    ensures
        a.walk(row, start, end, node, budget) == b.walk(row, start, end, node, budget),
    decreases budget,
{
    if budget > 0 && !a.is_leaf@[node] && start + a.branch(row, node) < end {
        lemma_walks_agree(a, b, row, start, end, start + a.branch(row, node), (budget - 1) as nat);
    }
}

/// Whether two ensembles have the same nodes.
pub open spec fn same_nodes(a: HistGradientBoosting, b: HistGradientBoosting) -> bool {
    &&& a.value@ == b.value@
    &&& a.feature_idx@ == b.feature_idx@
    &&& a.threshold@ == b.threshold@
    &&& a.missing_go_to_left@ == b.missing_go_to_left@
    &&& a.left@ == b.left@
    &&& a.right@ == b.right@
    &&& a.is_leaf@ == b.is_leaf@
}

/// One more tree changes one score: that of its class channel, by adding what
/// the tree gives for the sample to what the score is without the tree.
pub proof fn law_a_tree_adds_to_its_channel(
    without: HistGradientBoosting,
    with: HistGradientBoosting,
    row: Seq<Binary64>,
    c: int,
)
    requires
        with.ready(),
        with.tree_classes@.len() > 0,
        without.baseline@ == with.baseline@,
        without.tree_classes@ == with.tree_classes@.drop_last(),
        without.tree_offsets@ == with.tree_offsets@.take(with.tree_classes@.len() as int),
        same_nodes(without, with),
        0 <= c < with.baseline@.len(),
    ensures
        with.raw(row).len() == with.baseline@.len(),
        without.raw(row).len() == with.baseline@.len(),
        with.tree_classes@.last() == c ==> with.raw(row)[c] == sum(
            without.raw(row)[c],
            with.tree_value(row, with.tree_classes@.len() - 1),
        ),
        with.tree_classes@.last() != c ==> with.raw(row)[c] == without.raw(row)[c],
{
    let m = without.tree_classes@.len();
    assert(without.tree_classes@ =~= with.tree_classes@.take(m as int));
    lemma_scores_agree(without, with, row, m);
    lemma_scores_keep_their_number(with, row, m);
    assert(with.tree_classes@[m as int] == with.tree_classes@.last());
    assert(with.tree_classes@[m as int] < with.baseline@.len());
}

proof fn lemma_scores_keep_their_number(m: HistGradientBoosting, row: Seq<Binary64>, n: nat)
    requires
        m.fits(),
        n <= m.tree_classes@.len(),
    ensures
        m.scores(row, n).len() == m.baseline@.len(),
    decreases n,
{
    if n > 0 {
        lemma_scores_keep_their_number(m, row, (n - 1) as nat);
        assert(m.tree_classes@[n - 1] < m.baseline@.len());
    }
}

proof fn lemma_untouched_channel(m: HistGradientBoosting, row: Seq<Binary64>, c: int, n: nat)
    requires
        m.fits(),
        n <= m.tree_classes@.len(),
        0 <= c < m.baseline@.len(),
        forall|i: int| 0 <= i < m.tree_classes@.len() ==> #[trigger] m.tree_classes@[i] != c,
    ensures
        m.scores(row, n)[c] == m.baseline@[c],
    decreases n,
{
    if n > 0 {
        lemma_untouched_channel(m, row, c, (n - 1) as nat);
        lemma_scores_keep_their_number(m, row, (n - 1) as nat);
        assert(m.tree_classes@[n - 1] != c && m.tree_classes@[n - 1] < m.baseline@.len());
    }
}

/// A class channel without a tree scores its baseline, whatever the sample.
pub proof fn law_without_trees_the_baseline_stays(m: HistGradientBoosting, row: Seq<Binary64>, c: int)
    requires
        m.fits(),
        0 <= c < m.baseline@.len(),
        forall|i: int| 0 <= i < m.tree_classes@.len() ==> #[trigger] m.tree_classes@[i] != c,
    ensures
        m.raw(row).len() == m.baseline@.len(),
        m.raw(row)[c] == m.baseline@[c],
{
    lemma_scores_keep_their_number(m, row, m.tree_classes@.len());
    lemma_untouched_channel(m, row, c, m.tree_classes@.len());
}

/// Whether a sample goes from an inner node to another: it goes left where its
/// value is at most the threshold and right otherwise, and where it has no
/// value, by the flag of the node.
pub open spec fn goes_to(m: HistGradientBoosting, row: Seq<Binary64>, start: int, from: int, to: int) -> bool {
    let column = m.feature_idx@[from] as int;
    let known = column < row.len() && !row[column].nan();
    &&& !m.is_leaf@[from]
    &&& known && row[column].spec_le(m.threshold@[from]) ==> to == start + m.left@[from]
    &&& known && !row[column].spec_le(m.threshold@[from]) ==> to == start + m.right@[from]
    &&& !known && m.missing_go_to_left@[from] ==> to == start + m.left@[from]
    &&& !known && !m.missing_go_to_left@[from] ==> to == start + m.right@[from]
}

/// Whether nodes of tree `i` are the way of a sample from its first node on.
pub open spec fn is_descent(m: HistGradientBoosting, row: Seq<Binary64>, i: int, way: Seq<int>) -> bool {
    let start = m.tree_offsets@[i] as int;
    let end = m.tree_offsets@[i + 1] as int;
    &&& 0 < way.len() <= end - start + 1
    &&& way[0] == start
    &&& forall|k: int| 0 < k < way.len() ==> #[trigger] way[k] < end
    &&& forall|k: int| 0 <= k < way.len() - 1 ==> goes_to(m, row, start, #[trigger] way[k], way[k + 1])
}

proof fn lemma_descent(m: HistGradientBoosting, row: Seq<Binary64>, i: int, way: Seq<int>, k: int)
    requires
        is_descent(m, row, i, way),
        0 <= k < way.len(),
    ensures
        m.tree_value(row, i) == m.walk(
            row,
            m.tree_offsets@[i] as int,
            m.tree_offsets@[i + 1] as int,
            way[k],
            (m.tree_offsets@[i + 1] - m.tree_offsets@[i] + 1 - k) as nat,
        ),
    decreases k,
{
    if k > 0 {
        lemma_descent(m, row, i, way, k - 1);
        let start = m.tree_offsets@[i] as int;
        assert(goes_to(m, row, start, way[k - 1], way[k - 1 + 1]));
        assert(m.branch(row, way[k - 1]) == way[k] - start);
        assert(way[k] < m.tree_offsets@[i + 1]);
    }
}

/// What a tree gives for a sample is the value of the leaf that the sample's
/// way ends at, and nothing where the way leads out of the tree.
pub proof fn law_a_tree_gives_the_leaf_value(m: HistGradientBoosting, row: Seq<Binary64>, i: int, way: Seq<int>, out: int)
    requires
        is_descent(m, row, i, way),
    ensures
        m.is_leaf@[way.last()] ==> m.tree_value(row, i) == m.value@[way.last()],
        goes_to(m, row, m.tree_offsets@[i] as int, way.last(), out) && out >= m.tree_offsets@[i + 1]
            ==> m.tree_value(row, i) == zero(),
{
    lemma_descent(m, row, i, way, way.len() - 1);
    if goes_to(m, row, m.tree_offsets@[i] as int, way.last(), out) {
        assert(m.branch(row, way.last()) == out - m.tree_offsets@[i]);
    }
}

proof fn lemma_first_largest(raw: Seq<Binary64>, n: nat)
    requires
        0 < n <= raw.len(),
    ensures
        0 <= first_largest(raw, n) < n,
        forall|c: int| 0 <= c < n ==> (#[trigger] raw[c]).total_rank() <= raw[first_largest(raw, n)].total_rank(),
        forall|c: int|
            0 <= c < first_largest(raw, n) ==> (#[trigger] raw[c]).total_rank() < raw[first_largest(
                raw,
                n,
            )].total_rank(),
    decreases n,
{
    if n > 1 {
        lemma_first_largest(raw, (n - 1) as nat);
    }
}

/// A binary ensemble calls the second class just where its score is above zero;
/// any other calls the first of the classes that score highest.
pub proof fn law_the_called_class_scores_highest(raw: Seq<Binary64>)
    requires
        raw.len() > 0,
    ensures
        raw.len() == 1 ==> (predicted(raw) == 1 <==> zero().spec_lt(raw[0])) && 0 <= predicted(raw) <= 1,
        raw.len() > 1 ==> {
            &&& 0 <= predicted(raw) < raw.len()
            &&& forall|c: int|
                0 <= c < raw.len() ==> (#[trigger] raw[c]).total_rank() <= raw[predicted(raw)].total_rank()
            &&& forall|c: int|
                0 <= c < predicted(raw) ==> (#[trigger] raw[c]).total_rank() < raw[predicted(raw)].total_rank()
        },
{
    lemma_first_largest(raw, raw.len());
}

/// A class that scores higher has no smaller exponent.
pub proof fn law_exponents_keep_the_order(raw: Seq<Binary64>, a: int, b: int)
    requires
        raw.len() > 1,
        0 <= a < raw.len(),
        0 <= b < raw.len(),
        raw[a].spec_le(raw[b]),
        highest(raw).finite(),
    ensures
        exponents(raw)[a].spec_le(exponents(raw)[b]),
{
    law_addition_keeps_the_order(raw[a], raw[b], negated(highest(raw)));
}

/// A class with a larger exponential has no smaller probability.
pub proof fn law_probabilities_keep_the_order(exps: Seq<Binary64>, a: int, b: int)
    requires
        exps.len() > 1,
        0 <= a < exps.len(),
        0 <= b < exps.len(),
        exps[a].finite() && exps[b].finite(),
        exps[a].spec_le(exps[b]),
        larger(total(exps), nano()).finite(),
    ensures
        probabilities(exps)[a].spec_le(probabilities(exps)[b]),
{
    law_division_keeps_the_order(exps[a], exps[b], larger(total(exps), nano()));
}

/// Of two classes the one is as probable as the other leaves room for, and a
/// higher score, which makes the exponential of its negation smaller, makes the
/// second no less probable.
pub proof fn law_two_classes_share_the_probability(a: Binary64, b: Binary64)
    requires
        a.finite() && b.finite(),
        !a.negative() && !b.negative(),
        b.spec_le(a),
        sum(one(), a).finite(),
    ensures
        probabilities(seq![a]).len() == 2,
        probabilities(seq![a])[0] == difference(one(), probabilities(seq![a])[1]),
        probabilities(seq![a])[1].spec_le(probabilities(seq![b])[1]),
{
    lemma_one_is_finite();
    law_addition_keeps_the_order(b, a, one());
    law_addition_commutes(a, one());
    law_addition_commutes(b, one());
    law_adding_never_lowers(one(), b);
    law_larger_divisors_give_no_more(one(), sum(one(), b), sum(one(), a));
}

proof fn lemma_one_is_finite()
    ensures
        one().finite(),
        !one().negative(),
        zero().spec_lt(one()),
{
}

} // verus!
