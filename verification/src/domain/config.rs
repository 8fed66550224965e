//! Configuration: the analysis settings, their defaults, and what is derived
//! from them.

use crate::number::binary64::{milli, of_int, product, quotient, sum, zero, Binary64};
use crate::number::integral::{nearest_integer, truncated};
use crate::number::laws::law_small_integers_keep_their_order;
use crate::text::copy_text;
use vstd::prelude::*;

verus! {

/// Where the library lives and how it is logged.
#[derive(Debug, Clone, PartialEq)]
pub struct LibraryConfig {
    pub libpath: String,
    pub write_log: bool,
    pub logpath: String,
    pub rekordbox_sync_enabled: bool,
    pub rekordbox_xml_path: String,
}

impl Default for LibraryConfig {
    fn default() -> (r: Self)
        ensures
            r.libpath@ == "library"@,
            r.logpath@ == "mixlyzer.log"@,
            r.rekordbox_xml_path@.len() == 0,
            !r.write_log && !r.rekordbox_sync_enabled,
    {
        LibraryConfig {
            libpath: copy_text("library"),
            write_log: false,
            logpath: copy_text("mixlyzer.log"),
            rekordbox_sync_enabled: false,
            rekordbox_xml_path: String::new(),
        }
    }
}

/// How chroma is extracted for key detection.
#[derive(Debug, Clone, Copy, PartialEq, Eq, Structural)]
pub enum ChromaMethod {
    Cqt,
    Cens,
}

/// Parameters of the analysis pipeline.
#[derive(Debug, Clone, Copy, PartialEq)]
pub struct AnalysisConfig {
    pub use_hpss: bool,
    pub analysis_samp_rate: u32,
    pub chroma_method: ChromaMethod,
    pub chroma_hop_length: usize,
    pub chroma_cqt_bins_per_octave: usize,
    pub chroma_cqt_octaves: usize,
    pub bpm_hop_length: usize,
    /// Analysis window for dynamic tempo tracking, in milliseconds.
    pub bpm_win_length: usize,
    pub bpm_min: u32,
    pub bpm_max: u32,
    pub bpm_dynamic: bool,
    pub bpm_adaptive_window: bool,
    pub dynamic_downbeat: bool,
    /// Shifts the whole grid, in milliseconds. Positive moves beats later.
    pub beatgrid_offset_msec: Binary64,
    /// Envelope frame length in milliseconds.
    pub env_frame_ms: Binary64,
    pub env_lo: (Binary64, Binary64),
    pub env_mid: (Binary64, Binary64),
    pub env_hi: (Binary64, Binary64),
    pub env_order: u32,
}

/// The analysis settings used where nothing else was set.
pub open spec fn default_analysis() -> AnalysisConfig {
    AnalysisConfig {
        use_hpss: true,
        analysis_samp_rate: 22_050,
        chroma_method: ChromaMethod::Cens,
        chroma_hop_length: 512,
        chroma_cqt_bins_per_octave: 36,
        chroma_cqt_octaves: 6,
        bpm_hop_length: 128,
        bpm_win_length: 5_000,
        bpm_min: 110,
        bpm_max: 220,
        bpm_dynamic: true,
        bpm_adaptive_window: true,
        dynamic_downbeat: false,
        beatgrid_offset_msec: zero(),
        env_frame_ms: of_int(4),
        env_lo: (of_int(20), of_int(200)),
        env_mid: (of_int(200), of_int(3_000)),
        env_hi: (of_int(3_000), of_int(11_025)),
        env_order: 4,
    }
}

impl Default for AnalysisConfig {
    fn default() -> (r: Self)
        ensures
            r == default_analysis(),
    {
        AnalysisConfig {
            use_hpss: true,
            analysis_samp_rate: 22_050,
            chroma_method: ChromaMethod::Cens,
            chroma_hop_length: 512,
            chroma_cqt_bins_per_octave: 36,
            chroma_cqt_octaves: 6,
            bpm_hop_length: 128,
            bpm_win_length: 5_000,
            bpm_min: 110,
            bpm_max: 220,
            bpm_dynamic: true,
            bpm_adaptive_window: true,
            dynamic_downbeat: false,
            beatgrid_offset_msec: zero(),
            env_frame_ms: Binary64::from_u64(4),
            env_lo: (Binary64::from_u64(20), Binary64::from_u64(200)),
            env_mid: (Binary64::from_u64(200), Binary64::from_u64(3_000)),
            env_hi: (Binary64::from_u64(3_000), Binary64::from_u64(11_025)),
            env_order: 4,
        }
    }
}

impl AnalysisConfig {
    /// The lower end of the tempo search: the smaller bound, at least 20.
    pub open spec fn lowest_bpm(self) -> int {
        let lo = if self.bpm_min <= self.bpm_max {
            self.bpm_min
        } else {
            self.bpm_max
        };
        if lo < 20 {
            20
        } else {
            lo as int
        }
    }

    /// The upper end of the tempo search: the larger bound, at most 400, and
    /// above the lower end.
    pub open spec fn highest_bpm(self) -> int {
        let hi = if self.bpm_min <= self.bpm_max {
            self.bpm_max
        } else {
            self.bpm_min
        };
        let cut = if hi > 400 {
            400
        } else {
            hi as int
        };
        if cut <= self.lowest_bpm() {
            self.lowest_bpm() + 1
        } else {
            cut
        }
    }

    /// The tempo search range, ordered and clamped to something usable.
    pub fn bpm_range(&self) -> (r: (Binary64, Binary64))
        ensures
            r.0 == of_int(self.lowest_bpm()),
            r.1 == of_int(self.highest_bpm()),
            r.0.spec_lt(r.1),
    {
        let (small, large): (u32, u32) = if self.bpm_min <= self.bpm_max {
            (self.bpm_min, self.bpm_max)
        } else {
            (self.bpm_max, self.bpm_min)
        };
        let lo: u64 = if small < 20 {
            20
        } else {
            small as u64
        };
        let cut: u64 = if large > 400 {
            400
        } else {
            large as u64
        };
        let hi: u64 = if cut <= lo {
            lo + 1
        } else {
            cut
        };
        proof {
            law_small_integers_keep_their_order(lo as int, hi as int);
        }
        (Binary64::from_u64(lo), Binary64::from_u64(hi))
    }

    /// Grid offset in seconds.
    pub fn beatgrid_offset_sec(&self) -> (r: Binary64)
        ensures
            r == quotient(self.beatgrid_offset_msec, of_int(1000)),
    {
        self.beatgrid_offset_msec.over(Binary64::from_u64(1000))
    }

    /// Envelope hop in samples at the analysis rate, at least one.
    pub fn env_hop_samples(&self) -> (r: usize)
        ensures
            r == {
                let samples = truncated(
                    nearest_integer(
                        product(product(self.env_frame_ms, milli()), of_int(self.analysis_samp_rate as int)),
                    ),
                    usize::MAX as nat,
                );
                if samples < 1 {
                    1
                } else {
                    samples
                }
            },
    {
        let samples: Binary64 = self.env_frame_ms.times(milli()).times(
            Binary64::from_u64(self.analysis_samp_rate as u64),
        );
        let whole: usize = samples.round().truncate(usize::MAX as u64) as usize;
        if whole < 1 {
            1
        } else {
            whole
        }
    }
}

/// Weights of the key-detection transition model.
#[derive(Debug, Clone, Copy, PartialEq, Structural)]
pub struct KeyConfig {
    pub min_offset: Binary64,
    pub pitch_self: Binary64,
    pub pitch_semitone: Binary64,
    pub pitch_fifth: Binary64,
    pub pitch_others: Binary64,
}

/// The weights used where nothing else was set: 0.4, 0.9, 0.02, 0.001 and 0.01.
pub open spec fn default_weights() -> KeyConfig {
    KeyConfig {
        min_offset: Binary64 { bits: 0x3FD9_9999_9999_999A },
        pitch_self: Binary64 { bits: 0x3FEC_CCCC_CCCC_CCCD },
        pitch_semitone: Binary64 { bits: 0x3F94_7AE1_47AE_147B },
        pitch_fifth: milli(),
        pitch_others: Binary64 { bits: 0x3F84_7AE1_47AE_147B },
    }
}

impl Default for KeyConfig {
    fn default() -> (r: Self)
        ensures
            r == default_weights(),
    {
        KeyConfig {
            min_offset: Binary64::from_bits(0x3FD9_9999_9999_999A),
            pitch_self: Binary64::from_bits(0x3FEC_CCCC_CCCC_CCCD),
            pitch_semitone: Binary64::from_bits(0x3F94_7AE1_47AE_147B),
            pitch_fifth: milli(),
            pitch_others: Binary64::from_bits(0x3F84_7AE1_47AE_147B),
        }
    }
}

impl KeyConfig {
    /// The sum of the four transition weights.
    pub open spec fn weight(self) -> Binary64 {
        sum(sum(sum(self.pitch_self, self.pitch_semitone), self.pitch_fifth), self.pitch_others)
    }

    /// Whether the transition weights can form a probability distribution.
    pub fn weights_are_usable(&self) -> (r: bool)
        ensures
            r == (self.weight().finite() && zero().spec_lt(self.weight())),
    {
        let total: Binary64 = self.pitch_self.plus(self.pitch_semitone).plus(self.pitch_fifth).plus(self.pitch_others);
        total.is_finite() && zero().lt(total)
    }
}

/// The tempo range is the same whichever way round its ends are given, lies
/// between the tempos that are supported, and is kept where it already does.
pub proof fn law_the_tempo_range_has_no_direction(a: AnalysisConfig, b: AnalysisConfig)
    requires
        a.bpm_min == b.bpm_max,
        a.bpm_max == b.bpm_min,
    ensures
        a.lowest_bpm() == b.lowest_bpm(),
        a.highest_bpm() == b.highest_bpm(),
        20 <= a.lowest_bpm() < a.highest_bpm(),
        a.bpm_min < 400 || a.bpm_max < 400 ==> a.highest_bpm() <= 400,
        20 <= a.bpm_min < a.bpm_max <= 400 ==> a.lowest_bpm() == a.bpm_min && a.highest_bpm() == a.bpm_max,
{
}

} // verus!
