//! What a muxer can be told about its output.

use crate::cenc::types::{PsshBox, TencBox};
use crate::edits::EditListEntry;
use crate::levels::{LevaEntry, SsixLevels};
use crate::sample_groups::{CompactSampleToGroup, SampleGroupDescription, SampleToGroup};
use crate::tracks::TrepRecord;
use vstd::prelude::*;

verus! {

/// `mp42`
pub const BRAND_MP42: [u8; 4] = [0x6d, 0x70, 0x34, 0x32];

/// `mp41`
pub const BRAND_MP41: [u8; 4] = [0x6d, 0x70, 0x34, 0x31];

/// `isom`
pub const BRAND_ISOM: [u8; 4] = [0x69, 0x73, 0x6f, 0x6d];

/// `iso2`
pub const BRAND_ISO2: [u8; 4] = [0x69, 0x73, 0x6f, 0x32];

/// `iso4`
pub const BRAND_ISO4: [u8; 4] = [0x69, 0x73, 0x6f, 0x34];

/// `iso6`
pub const BRAND_ISO6: [u8; 4] = [0x69, 0x73, 0x6f, 0x36];

/// `isml`
pub const BRAND_ISML: [u8; 4] = [0x69, 0x73, 0x6d, 0x6c];

/// `piff`
pub const BRAND_PIFF: [u8; 4] = [0x70, 0x69, 0x66, 0x66];

/// `qt  `
pub const BRAND_QT: [u8; 4] = [0x71, 0x74, 0x20, 0x20];

/// `msdh`
pub const BRAND_MSDH: [u8; 4] = [0x6d, 0x73, 0x64, 0x68];

/// `msix`
pub const BRAND_MSIX: [u8; 4] = [0x6d, 0x73, 0x69, 0x78];

/// The brands that a file or a segment claims.
#[derive(Clone, Debug, PartialEq, Eq)]
pub enum BrandPreset {
    /// `mp42`, compatible with `isom mp42 mp41 iso2`.
    Mp4,
    /// `qt  `, compatible with itself.
    Mov,
    /// `iso4`, compatible with `iso4 piff iso6 isml`.
    Ismv,
    /// Any brands.
    Custom {
        /// The major brand.
        major: [u8; 4],
        /// The compatible brands.
        compatible: Vec<[u8; 4]>,
    },
}

/// The major brand of a preset.
pub open spec fn major_of(b: BrandPreset) -> [u8; 4] {
    match b {
        BrandPreset::Mp4 => BRAND_MP42,
        BrandPreset::Mov => BRAND_QT,
        BrandPreset::Ismv => BRAND_ISO4,
        BrandPreset::Custom { major, .. } => major,
    }
}

/// The compatible brands of a preset.
pub open spec fn compatible_of(b: BrandPreset) -> Seq<[u8; 4]> {
    match b {
        BrandPreset::Mp4 => seq![BRAND_ISOM, BRAND_MP42, BRAND_MP41, BRAND_ISO2],
        BrandPreset::Mov => seq![BRAND_QT],
        BrandPreset::Ismv => seq![BRAND_ISO4, BRAND_PIFF, BRAND_ISO6, BRAND_ISML],
        BrandPreset::Custom { compatible, .. } => compatible@,
    }
}

/// A copy of a list of brands.
pub fn copy_brands(brands: &[[u8; 4]]) -> (r: Vec<[u8; 4]>)
    ensures
        r@ == brands@,
{
    let mut out: Vec<[u8; 4]> = Vec::new();
    let mut i: usize = 0;
    while i < brands.len()
        invariant
            i <= brands.len(),
            out@ == brands@.take(i as int),
        decreases brands.len() - i,
    {
        out.push(brands[i]);
        assert(brands@.take(i as int).push(brands@[i as int]) =~= brands@.take(i + 1));
        i = i + 1;
    }
    assert(brands@.take(brands.len() as int) =~= brands@);
    out
}

impl BrandPreset {
    /// The major brand.
    pub fn major_brand(&self) -> (r: [u8; 4])
        ensures
            r == major_of(*self),
    {
        match self {
            BrandPreset::Mp4 => BRAND_MP42,
            BrandPreset::Mov => BRAND_QT,
            BrandPreset::Ismv => BRAND_ISO4,
            BrandPreset::Custom { major, .. } => *major,
        }
    }

    /// The compatible brands.
    pub fn compatible_brands(&self) -> (r: Vec<[u8; 4]>)
        ensures
            r@ == compatible_of(*self),
    {
        let mut out: Vec<[u8; 4]> = Vec::new();
        match self {
            BrandPreset::Mp4 => {
                out.push(BRAND_ISOM);
                out.push(BRAND_MP42);
                out.push(BRAND_MP41);
                out.push(BRAND_ISO2);
            },
            BrandPreset::Mov => {
                out.push(BRAND_QT);
            },
            BrandPreset::Ismv => {
                out.push(BRAND_ISO4);
                out.push(BRAND_PIFF);
                out.push(BRAND_ISO6);
                out.push(BRAND_ISML);
            },
            BrandPreset::Custom { compatible, .. } => {
                out = copy_brands(compatible.as_slice());
            },
        }
        assert(out@ =~= compatible_of(*self));
        out
    }
}

/// When a fragment is written.
#[derive(Clone, Copy, Debug, PartialEq, Eq)]
pub enum FragmentCadence {
    /// As soon as the pending samples of the first track last this many
    /// ticks of its media clock; never, where there is no such number.
    EverySeconds(Option<u64>),
    /// At every keyframe of the first track, which opens the next fragment.
    EveryKeyframe,
    /// At every so many packets of the first track.
    EveryNPackets(u32),
}

/// How a fragmented file is written.
#[derive(Clone, Debug, PartialEq, Eq)]
pub struct FragmentedOptions {
    /// When a fragment is written.
    pub cadence: FragmentCadence,
    /// The brands of the segment type box before each fragment, if there
    /// is to be one.
    pub styp: Option<BrandPreset>,
    /// Whether a segment index precedes each fragment and a random access
    /// table ends the file.
    pub emit_random_access_indexes: bool,
    /// The levels of the file; without any no level assignment is written.
    pub levels: Vec<LevaEntry>,
    /// Whether a subsegment index follows each segment index.
    pub emit_ssix: bool,
    /// The levels of metadata and of media in the subsegment index.
    pub ssix_levels: SsixLevels,
    /// Properties of the tracks in the fragments to come.
    pub treps: Vec<TrepRecord>,
    /// Whether the length of the whole presentation is recorded.
    pub write_mehd: bool,
}

impl FragmentedOptions {
    /// The default options under a given cadence: a `msdh` segment type
    /// box and random access tables, and nothing else.
    pub fn with_cadence(cadence: FragmentCadence) -> (r: FragmentedOptions)
        ensures
            r.cadence == cadence,
            r.styp matches Some(b) && major_of(b) == BRAND_MSDH && compatible_of(b)
                == seq![BRAND_MSDH, BRAND_MSIX],
            r.emit_random_access_indexes,
            r.levels@.len() == 0,
            !r.emit_ssix,
            r.ssix_levels == (SsixLevels { metadata: 1, media: 2 }),
            r.treps@.len() == 0,
            !r.write_mehd,
    {
        let mut compatible: Vec<[u8; 4]> = Vec::new();
        compatible.push(BRAND_MSDH);
        compatible.push(BRAND_MSIX);
        assert(compatible@ =~= seq![BRAND_MSDH, BRAND_MSIX]);
        FragmentedOptions {
            cadence,
            styp: Some(BrandPreset::Custom { major: BRAND_MSDH, compatible }),
            emit_random_access_indexes: true,
            levels: Vec::new(),
            emit_ssix: false,
            ssix_levels: SsixLevels { metadata: 1, media: 2 },
            treps: Vec::new(),
            write_mehd: false,
        }
    }

    /// The default options for a first track whose media clock runs at
    /// `rate` ticks per second: a fragment every two seconds.
    pub fn default_for(rate: u32) -> (r: FragmentedOptions)
        ensures
            r.cadence == FragmentCadence::EverySeconds(Some((2 * rate) as u64)),
            r.styp matches Some(b) && major_of(b) == BRAND_MSDH && compatible_of(b)
                == seq![BRAND_MSDH, BRAND_MSIX],
            r.emit_random_access_indexes,
            r.levels@.len() == 0,
            !r.emit_ssix,
            r.ssix_levels == (SsixLevels { metadata: 1, media: 2 }),
            r.treps@.len() == 0,
            !r.write_mehd,
    {
        FragmentedOptions::with_cadence(FragmentCadence::EverySeconds(Some(2 * (rate as u64))))
    }
}

/// The sample groups of one track.
#[derive(Clone, Debug, Default, PartialEq, Eq)]
pub struct TrackSampleGroups {
    /// The stream that the groups belong to.
    pub stream_index: usize,
    /// The maps from samples to groups.
    pub sbgp: Vec<SampleToGroup>,
    /// The descriptions of the groups.
    pub sgpd: Vec<SampleGroupDescription>,
    /// The maps in their compact form.
    pub csgp: Vec<CompactSampleToGroup>,
}

/// The edit list of one track.
#[derive(Clone, Debug, Default, PartialEq, Eq)]
pub struct TrackEditList {
    /// The stream that the edit list belongs to.
    pub stream_index: usize,
    /// The edits, in order.
    pub entries: Vec<EditListEntry>,
}

/// The protection of one track.
#[derive(Clone, Debug, PartialEq, Eq)]
pub struct TrackProtection {
    /// The stream to protect.
    pub stream_index: usize,
    /// The protection scheme.
    pub scheme_type: [u8; 4],
    /// The version of the scheme.
    pub scheme_version: u32,
    /// The default encryption parameters of the track.
    pub tenc: TencBox,
}

/// How a muxer shapes its output.
#[derive(Clone, Debug, PartialEq, Eq)]
pub struct Mp4MuxerOptions {
    /// The brands of the file.
    pub brand: BrandPreset,
    /// Whether the movie box is moved before the media data.
    pub faststart: bool,
    /// How a fragmented file is written, where one is.
    pub fragmented: Option<FragmentedOptions>,
    /// Whether a late first packet gives a track an edit list.
    pub write_edit_list: bool,
    /// Sample groups by track.
    pub track_sample_groups: Vec<TrackSampleGroups>,
    /// Edit lists by track.
    pub track_edit_lists: Vec<TrackEditList>,
    /// Whether the media data box gets a 64-bit size.
    pub large_mdat: bool,
    /// Protection by track.
    pub track_protection: Vec<TrackProtection>,
    /// The headers of content protection systems for the whole movie.
    pub pssh: Vec<PsshBox>,
}

impl Default for Mp4MuxerOptions {
    /// A plain `mp42` file with start delays as edit lists.
    fn default() -> (r: Mp4MuxerOptions)
        ensures
            r.brand == BrandPreset::Mp4,
            !r.faststart,
            r.fragmented is None,
            r.write_edit_list,
            r.track_sample_groups@.len() == 0,
            r.track_edit_lists@.len() == 0,
            !r.large_mdat,
            r.track_protection@.len() == 0,
            r.pssh@.len() == 0,
    {
        Mp4MuxerOptions {
            brand: BrandPreset::Mp4,
            faststart: false,
            fragmented: None,
            write_edit_list: true,
            track_sample_groups: Vec::new(),
            track_edit_lists: Vec::new(),
            large_mdat: false,
            track_protection: Vec::new(),
            pssh: Vec::new(),
        }
    }
}

/// The brands of the presets, by their characters.
pub proof fn law_preset_brands()
    ensures
        major_of(BrandPreset::Mp4)@ == seq![0x6du8, 0x70, 0x34, 0x32],
        major_of(BrandPreset::Mov)@ == seq![0x71u8, 0x74, 0x20, 0x20],
        major_of(BrandPreset::Ismv)@ == seq![0x69u8, 0x73, 0x6f, 0x34],
        compatible_of(BrandPreset::Mp4).contains(major_of(BrandPreset::Mp4)),
        compatible_of(BrandPreset::Mov).contains(major_of(BrandPreset::Mov)),
        compatible_of(BrandPreset::Ismv).contains(major_of(BrandPreset::Ismv)),
        compatible_of(BrandPreset::Mp4).len() == 4,
        compatible_of(BrandPreset::Mov).len() == 1,
        compatible_of(BrandPreset::Ismv).len() == 4,
        BRAND_ISOM@ == seq![0x69u8, 0x73, 0x6f, 0x6d],
        BRAND_MP41@ == seq![0x6du8, 0x70, 0x34, 0x31],
        BRAND_ISO2@ == seq![0x69u8, 0x73, 0x6f, 0x32],
        BRAND_ISO6@ == seq![0x69u8, 0x73, 0x6f, 0x36],
        BRAND_ISML@ == seq![0x69u8, 0x73, 0x6d, 0x6c],
        BRAND_PIFF@ == seq![0x70u8, 0x69, 0x66, 0x66],
        BRAND_MSDH@ == seq![0x6du8, 0x73, 0x64, 0x68],
        BRAND_MSIX@ == seq![0x6du8, 0x73, 0x69, 0x78],
{
    assert(compatible_of(BrandPreset::Mp4)[1] == BRAND_MP42);
    assert(compatible_of(BrandPreset::Mov)[0] == BRAND_QT);
    assert(compatible_of(BrandPreset::Ismv)[0] == BRAND_ISO4);
}

} // verus!
