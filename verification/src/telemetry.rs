//! The decisions behind telemetry decoding that need no floating point: finding channels by
//! alias, recognising unit labels, decoding the `sats` flags, and choosing a coordinate format.

use vstd::prelude::*;
use vstd::string::StringSliceAdditionalSpecFns;
use vstd::utf8::encode_utf8;

use crate::text::{normalise, normalised};
use crate::types::{channels_view, Channel, ChannelView};

verus! {

/// Axis semantics for Racelogic's packed-minutes coordinate encoding.
#[derive(Clone, Copy, Debug, PartialEq, Eq, Structural)]
pub enum CoordinateAxis {
    Latitude,
    Longitude,
}

/// Which real-world Racelogic `lat`/`long` convention a recording uses.
#[derive(Clone, Copy, Debug, PartialEq, Eq, Structural)]
pub enum CoordinateFormat {
    /// `DDMM.MMMM` / `DDDMM.MMMM`: degrees and minutes packed into one field.
    PackedDegreesMinutes,
    /// A single continuous value in minutes (degrees × 60 + minutes).
    ContinuousMinutes,
}

impl Default for CoordinateFormat {
    fn default() -> (r: Self)
        ensures
            r == CoordinateFormat::PackedDegreesMinutes,
    {
        CoordinateFormat::PackedDegreesMinutes
    }
}

impl CoordinateFormat {
    /// The format of a recording with `present` rows whose coordinates are both finite, of
    /// which `packed_valid` decode under the packed convention: continuous minutes when the
    /// packed convention fails for the majority of them.
    pub fn from_counts(present: usize, packed_valid: usize) -> (r: CoordinateFormat)
        requires
            packed_valid <= present,
        ensures
            r == (if present > 0 && packed_valid * 2 < present {
                CoordinateFormat::ContinuousMinutes
            } else {
                CoordinateFormat::PackedDegreesMinutes
            }),
    {
        if present > 0 && packed_valid < present - packed_valid {
            CoordinateFormat::ContinuousMinutes
        } else {
            CoordinateFormat::PackedDegreesMinutes
        }
    }
}

/// Satellite and trigger flags decoded from the VBO `sats` field.
#[derive(Clone, Copy, Debug, PartialEq, Eq, Structural)]
pub struct SatelliteQuality {
    pub satellites: u8,
    pub dgps: bool,
    pub brake_trigger: bool,
}

impl SatelliteQuality {
    /// Decodes a `sats` value: the low six bits count satellites, bit 6 (64) is the brake
    /// trigger and bit 7 (128) marks DGPS.
    pub fn from_sats_field(raw: u8) -> (r: SatelliteQuality)
        ensures
            r.satellites == raw % 64,
            r.brake_trigger == ((raw / 64) % 2 == 1),
            r.dgps == (raw >= 128),
    {
        let satellites = raw & 0b0011_1111u8;
        let brake_trigger = raw & 64u8 != 0;
        let dgps = raw & 128u8 != 0;
        assert(raw & 0b0011_1111u8 == raw % 64) by (bit_vector);
        assert((raw & 64u8 != 0) == ((raw / 64) % 2 == 1)) by (bit_vector);
        assert((raw & 128u8 != 0) == (raw >= 128)) by (bit_vector);
        SatelliteQuality { satellites, dgps, brake_trigger }
    }
}

/// `normalised` equals the bytes of one of `words`.
pub open spec fn one_of(normalised: Seq<u8>, words: Seq<&str>) -> bool {
    exists|k: int| 0 <= k < words.len() && normalised == #[trigger] words[k].spec_bytes()
}

/// Whether `value` equals the bytes of one of `words`.
pub fn is_one_of(value: &Vec<u8>, words: &[&str]) -> (r: bool)
    ensures
        r == one_of(value@, words@),
{
    let n = words.len();
    let mut k: usize = 0;
    while k < n
        invariant
            n == words@.len(),
            k <= n,
            forall|j: int| 0 <= j < k ==> value@ != #[trigger] words@[j].spec_bytes(),
        decreases n - k,
    {
        if bytes_eq(value.as_slice(), words[k].as_bytes()) {
            return true;
        }
        k = k + 1;
    }
    false
}

/// Byte-string equality.
pub fn bytes_eq(a: &[u8], b: &[u8]) -> (r: bool)
    ensures
        r == (a@ == b@),
{
    let n = a.len();
    if n != b.len() {
        return false;
    }
    let mut i: usize = 0;
    while i < n
        invariant
            n == a@.len(),
            n == b@.len(),
            i <= n,
            forall|j: int| 0 <= j < i ==> a@[j] == b@[j],
        decreases n - i,
    {
        if a[i] != b[i] {
            return false;
        }
        i = i + 1;
    }
    assert(a@ == b@);
    true
}

/// The channel's normalised name is one of `aliases`.
pub open spec fn has_alias(channel: ChannelView, aliases: Seq<&str>) -> bool {
    one_of(normalised(encode_utf8(channel.name)), aliases)
}

/// Index of the first channel from `i` on that has one of `aliases` (or the count).
pub open spec fn alias_index_from(channels: Seq<ChannelView>, aliases: Seq<&str>, i: int) -> int
    decreases channels.len() - i,
{
    if 0 <= i < channels.len() && !has_alias(channels[i], aliases) {
        alias_index_from(channels, aliases, i + 1)
    } else {
        i
    }
}

/// The first channel whose normalised name is one of `aliases`.
pub fn find_channel(channels: &[Channel], aliases: &[&str]) -> (r: Option<usize>)
    ensures
        ({
            let at = alias_index_from(channels_view(channels@), aliases@, 0);
            if at < channels@.len() {
                r == Some(at as usize)
            } else {
                r is None
            }
        }),
{
    let n = channels.len();
    let ghost cv = channels_view(channels@);
    let mut i: usize = 0;
    while i < n
        invariant
            n == channels@.len(),
            cv == channels_view(channels@),
            i <= n,
            alias_index_from(cv, aliases@, i as int) == alias_index_from(cv, aliases@, 0),
        decreases n - i,
    {
        let name = normalise(channels[i].name.as_str());
        assert(cv[i as int].name == channels@[i as int].name@);
        if is_one_of(&name, aliases) {
            return Some(i);
        }
        i = i + 1;
    }
    None
}

proof fn lemma_alias_index(channels: Seq<ChannelView>, aliases: Seq<&str>, i: int)
    requires
        0 <= i <= channels.len(),
    ensures
        i <= alias_index_from(channels, aliases, i) <= channels.len(),
        forall|j: int|
            i <= j < alias_index_from(channels, aliases, i) ==> !has_alias(#[trigger] channels[j], aliases),
        alias_index_from(channels, aliases, i) < channels.len() ==> has_alias(
            channels[alias_index_from(channels, aliases, i)],
            aliases,
        ),
    decreases channels.len() - i,
{
    if i < channels.len() && !has_alias(channels[i], aliases) {
        lemma_alias_index(channels, aliases, i + 1);
    }
}

/// Channel lookup by alias compares a channel's normalised name with every alias, wherever it
/// stands in the list: the channel `find_channel` reports (the first `i` it can return) is no
/// later than any channel whose normalised name equals some alias, its own normalised name
/// equals one of the aliases, and no channel before it equals any alias.
pub proof fn law_find_channel_matches_any_alias(channels: Seq<ChannelView>, aliases: Seq<&str>)
    ensures
        ({
            let at = alias_index_from(channels, aliases, 0);
            &&& 0 <= at <= channels.len()
            &&& forall|i: int, k: int|
                0 <= i < channels.len() && 0 <= k < aliases.len() && normalised(
                    encode_utf8(#[trigger] channels[i].name),
                ) == (#[trigger] aliases[k]).spec_bytes() ==> at <= i
            &&& forall|j: int, k: int|
                0 <= j < at && 0 <= k < aliases.len() ==> normalised(
                    encode_utf8(#[trigger] channels[j].name),
                ) != (#[trigger] aliases[k]).spec_bytes()
            &&& at < channels.len() ==> exists|k: int|
                0 <= k < aliases.len() && normalised(encode_utf8(channels[at].name)) == (
                #[trigger] aliases[k]).spec_bytes()
        }),
{
    lemma_alias_index(channels, aliases, 0);
    let at = alias_index_from(channels, aliases, 0);
    assert forall|i: int, k: int|
        0 <= i < channels.len() && 0 <= k < aliases.len() && normalised(
            encode_utf8(#[trigger] channels[i].name),
        ) == (#[trigger] aliases[k]).spec_bytes() implies at <= i by {
        if i < at {
            assert(!has_alias(channels[i], aliases));
        }
    }
    assert forall|j: int, k: int|
        0 <= j < at && 0 <= k < aliases.len() implies normalised(
            encode_utf8(#[trigger] channels[j].name),
        ) != (#[trigger] aliases[k]).spec_bytes() by {
        assert(!has_alias(channels[j], aliases));
    }
}

/// Speed units recognised in `[channel units]`.
#[derive(Clone, Copy, Debug, PartialEq, Eq, Structural)]
pub enum SpeedUnit {
    KilometresPerHour,
    Knots,
    MilesPerHour,
    MetresPerSecond,
}

/// Acceleration units recognised in `[channel units]`.
#[derive(Clone, Copy, Debug, PartialEq, Eq, Structural)]
pub enum AccelerationUnit {
    StandardGravity,
    MetresPerSecondSquared,
    FeetPerSecondSquared,
}

/// Angular-rate units recognised in `[channel units]`.
#[derive(Clone, Copy, Debug, PartialEq, Eq, Structural)]
pub enum AngularRateUnit {
    DegreesPerSecond,
    RadiansPerSecond,
}

/// Length units recognised in `[channel units]`.
#[derive(Clone, Copy, Debug, PartialEq, Eq, Structural)]
pub enum LengthUnit {
    Metres,
    Kilometres,
    Feet,
    Miles,
}

pub open spec fn label(unit: &str) -> Seq<u8> {
    normalised(unit.spec_bytes())
}

pub open spec fn speed_unit_of(unit: &str) -> Option<SpeedUnit> {
    let n = label(unit);
    if one_of(n, seq!["kmh", "kph", "kilometresperhour", "kilometersperhour"]) {
        Some(SpeedUnit::KilometresPerHour)
    } else if one_of(n, seq!["knots", "knot", "kts"]) {
        Some(SpeedUnit::Knots)
    } else if one_of(n, seq!["mph", "milesperhour"]) {
        Some(SpeedUnit::MilesPerHour)
    } else if one_of(n, seq!["ms", "metrespersecond", "meterspersecond"]) {
        Some(SpeedUnit::MetresPerSecond)
    } else {
        None
    }
}

pub open spec fn acceleration_unit_of(unit: &str) -> Option<AccelerationUnit> {
    let n = label(unit);
    if one_of(n, seq!["g", "gee", "gravity", "gravities"]) {
        Some(AccelerationUnit::StandardGravity)
    } else if one_of(n, seq!["ms2", "mps2", "metrespersecondsquared", "meterspersecondsquared"]) {
        Some(AccelerationUnit::MetresPerSecondSquared)
    } else if one_of(n, seq!["fts2", "fps2", "feetpersecondsquared"]) {
        Some(AccelerationUnit::FeetPerSecondSquared)
    } else {
        None
    }
}

pub open spec fn angular_rate_unit_of(unit: &str) -> Option<AngularRateUnit> {
    let n = label(unit);
    if one_of(n, seq!["degs", "degsec", "degreespersecond", "degreessecond"]) {
        Some(AngularRateUnit::DegreesPerSecond)
    } else if one_of(n, seq!["rads", "radsec", "radianspersecond", "radianssecond"]) {
        Some(AngularRateUnit::RadiansPerSecond)
    } else {
        None
    }
}

pub open spec fn length_unit_of(unit: &str) -> Option<LengthUnit> {
    let n = label(unit);
    if one_of(n, seq!["m", "metre", "metres", "meter", "meters"]) {
        Some(LengthUnit::Metres)
    } else if one_of(n, seq!["km", "kilometre", "kilometres", "kilometer", "kilometers"]) {
        Some(LengthUnit::Kilometres)
    } else if one_of(n, seq!["ft", "foot", "feet"]) {
        Some(LengthUnit::Feet)
    } else if one_of(n, seq!["mi", "mile", "miles"]) {
        Some(LengthUnit::Miles)
    } else {
        None
    }
}

impl SpeedUnit {
    /// The speed unit a `[channel units]` label declares, compared as normalised text.
    pub fn from_label(unit: &str) -> (r: Option<SpeedUnit>)
        ensures
            r == speed_unit_of(unit),
    {
        let n = normalise(unit);
        if is_one_of(&n, &["kmh", "kph", "kilometresperhour", "kilometersperhour"]) {
            Some(SpeedUnit::KilometresPerHour)
        } else if is_one_of(&n, &["knots", "knot", "kts"]) {
            Some(SpeedUnit::Knots)
        } else if is_one_of(&n, &["mph", "milesperhour"]) {
            Some(SpeedUnit::MilesPerHour)
        } else if is_one_of(&n, &["ms", "metrespersecond", "meterspersecond"]) {
            Some(SpeedUnit::MetresPerSecond)
        } else {
            None
        }
    }
}

impl AccelerationUnit {
    /// The acceleration unit a `[channel units]` label declares.
    pub fn from_label(unit: &str) -> (r: Option<AccelerationUnit>)
        ensures
            r == acceleration_unit_of(unit),
    {
        let n = normalise(unit);
        if is_one_of(&n, &["g", "gee", "gravity", "gravities"]) {
            Some(AccelerationUnit::StandardGravity)
        } else if is_one_of(
            &n,
            &["ms2", "mps2", "metrespersecondsquared", "meterspersecondsquared"],
        ) {
            Some(AccelerationUnit::MetresPerSecondSquared)
        } else if is_one_of(&n, &["fts2", "fps2", "feetpersecondsquared"]) {
            Some(AccelerationUnit::FeetPerSecondSquared)
        } else {
            None
        }
    }
}

impl AngularRateUnit {
    /// The angular-rate unit a `[channel units]` label declares.
    pub fn from_label(unit: &str) -> (r: Option<AngularRateUnit>)
        ensures
            r == angular_rate_unit_of(unit),
    {
        let n = normalise(unit);
        if is_one_of(&n, &["degs", "degsec", "degreespersecond", "degreessecond"]) {
            Some(AngularRateUnit::DegreesPerSecond)
        } else if is_one_of(&n, &["rads", "radsec", "radianspersecond", "radianssecond"]) {
            Some(AngularRateUnit::RadiansPerSecond)
        } else {
            None
        }
    }
}

impl LengthUnit {
    /// The length unit a `[channel units]` label declares.
    pub fn from_label(unit: &str) -> (r: Option<LengthUnit>)
        ensures
            r == length_unit_of(unit),
    {
        let n = normalise(unit);
        if is_one_of(&n, &["m", "metre", "metres", "meter", "meters"]) {
            Some(LengthUnit::Metres)
        } else if is_one_of(&n, &["km", "kilometre", "kilometres", "kilometer", "kilometers"]) {
            Some(LengthUnit::Kilometres)
        } else if is_one_of(&n, &["ft", "foot", "feet"]) {
            Some(LengthUnit::Feet)
        } else if is_one_of(&n, &["mi", "mile", "miles"]) {
            Some(LengthUnit::Miles)
        } else {
            None
        }
    }
}


/// The UTF-8 bytes of an ASCII string literal, once its characters are known.
proof fn lemma_literal_bytes(s: &str, bytes: Seq<u8>)
    requires
        s@.len() == bytes.len(),
        forall|i: int|
            0 <= i < bytes.len() ==> '\0' <= s@[i] <= '\u{7f}' && #[trigger] bytes[i] == s@[i] as u8,
    ensures
        s.spec_bytes() == bytes,
{
    assert(vstd::utf8::is_ascii_chars(s@)) by {
        assert forall|i: int| 0 <= i < s@.len() implies '\0' <= #[trigger] s@[i] <= '\u{7f}' by {
            assert(bytes[i] == s@[i] as u8);
        }
    }
    vstd::utf8::is_ascii_chars_encode_utf8(s@);
    assert(s.spec_bytes() =~= bytes);
}

/// The `[channel units]` speed labels: a label whose normalised form is `kmh` or `kph` or `kilometresperhour` or `kilometersperhour` declares `KilometresPerHour`; `knots` or `knot` or `kts` declares `Knots`; `mph` or `milesperhour` declares `MilesPerHour`; `ms` or `metrespersecond` or `meterspersecond` declares `MetresPerSecond`. Every
/// other label declares no such unit. The lists are disjoint, so each label names one unit.
pub proof fn law_speed_labels(unit: &str)
    ensures
        ({
            let n = normalised(unit.spec_bytes());
            &&& (n == seq![107u8, 109u8, 104u8] || n == seq![107u8, 112u8, 104u8] || n == seq![107u8, 105u8, 108u8, 111u8, 109u8, 101u8, 116u8, 114u8, 101u8, 115u8, 112u8, 101u8, 114u8, 104u8, 111u8, 117u8, 114u8] || n == seq![107u8, 105u8, 108u8, 111u8, 109u8, 101u8, 116u8, 101u8, 114u8, 115u8, 112u8, 101u8, 114u8, 104u8, 111u8, 117u8, 114u8]) ==> speed_unit_of(unit) == Some(SpeedUnit::KilometresPerHour)
            &&& (n == seq![107u8, 110u8, 111u8, 116u8, 115u8] || n == seq![107u8, 110u8, 111u8, 116u8] || n == seq![107u8, 116u8, 115u8]) ==> speed_unit_of(unit) == Some(SpeedUnit::Knots)
            &&& (n == seq![109u8, 112u8, 104u8] || n == seq![109u8, 105u8, 108u8, 101u8, 115u8, 112u8, 101u8, 114u8, 104u8, 111u8, 117u8, 114u8]) ==> speed_unit_of(unit) == Some(SpeedUnit::MilesPerHour)
            &&& (n == seq![109u8, 115u8] || n == seq![109u8, 101u8, 116u8, 114u8, 101u8, 115u8, 112u8, 101u8, 114u8, 115u8, 101u8, 99u8, 111u8, 110u8, 100u8] || n == seq![109u8, 101u8, 116u8, 101u8, 114u8, 115u8, 112u8, 101u8, 114u8, 115u8, 101u8, 99u8, 111u8, 110u8, 100u8]) ==> speed_unit_of(unit) == Some(SpeedUnit::MetresPerSecond)
            &&& !(n == seq![107u8, 109u8, 104u8] || n == seq![107u8, 112u8, 104u8] || n == seq![107u8, 105u8, 108u8, 111u8, 109u8, 101u8, 116u8, 114u8, 101u8, 115u8, 112u8, 101u8, 114u8, 104u8, 111u8, 117u8, 114u8] || n == seq![107u8, 105u8, 108u8, 111u8, 109u8, 101u8, 116u8, 101u8, 114u8, 115u8, 112u8, 101u8, 114u8, 104u8, 111u8, 117u8, 114u8] || n == seq![107u8, 110u8, 111u8, 116u8, 115u8] || n == seq![107u8, 110u8, 111u8, 116u8] || n == seq![107u8, 116u8, 115u8] || n == seq![109u8, 112u8, 104u8] || n == seq![109u8, 105u8, 108u8, 101u8, 115u8, 112u8, 101u8, 114u8, 104u8, 111u8, 117u8, 114u8] || n == seq![109u8, 115u8] || n == seq![109u8, 101u8, 116u8, 114u8, 101u8, 115u8, 112u8, 101u8, 114u8, 115u8, 101u8, 99u8, 111u8, 110u8, 100u8] || n == seq![109u8, 101u8, 116u8, 101u8, 114u8, 115u8, 112u8, 101u8, 114u8, 115u8, 101u8, 99u8, 111u8, 110u8, 100u8]) ==> speed_unit_of(unit) is None
        }),
{
    reveal_strlit("kmh");
    lemma_literal_bytes("kmh", seq![107u8, 109u8, 104u8]);
    reveal_strlit("kph");
    lemma_literal_bytes("kph", seq![107u8, 112u8, 104u8]);
    reveal_strlit("kilometresperhour");
    lemma_literal_bytes("kilometresperhour", seq![107u8, 105u8, 108u8, 111u8, 109u8, 101u8, 116u8, 114u8, 101u8, 115u8, 112u8, 101u8, 114u8, 104u8, 111u8, 117u8, 114u8]);
    reveal_strlit("kilometersperhour");
    lemma_literal_bytes("kilometersperhour", seq![107u8, 105u8, 108u8, 111u8, 109u8, 101u8, 116u8, 101u8, 114u8, 115u8, 112u8, 101u8, 114u8, 104u8, 111u8, 117u8, 114u8]);
    reveal_strlit("knots");
    lemma_literal_bytes("knots", seq![107u8, 110u8, 111u8, 116u8, 115u8]);
    reveal_strlit("knot");
    lemma_literal_bytes("knot", seq![107u8, 110u8, 111u8, 116u8]);
    reveal_strlit("kts");
    lemma_literal_bytes("kts", seq![107u8, 116u8, 115u8]);
    reveal_strlit("mph");
    lemma_literal_bytes("mph", seq![109u8, 112u8, 104u8]);
    reveal_strlit("milesperhour");
    lemma_literal_bytes("milesperhour", seq![109u8, 105u8, 108u8, 101u8, 115u8, 112u8, 101u8, 114u8, 104u8, 111u8, 117u8, 114u8]);
    reveal_strlit("ms");
    lemma_literal_bytes("ms", seq![109u8, 115u8]);
    reveal_strlit("metrespersecond");
    lemma_literal_bytes("metrespersecond", seq![109u8, 101u8, 116u8, 114u8, 101u8, 115u8, 112u8, 101u8, 114u8, 115u8, 101u8, 99u8, 111u8, 110u8, 100u8]);
    reveal_strlit("meterspersecond");
    lemma_literal_bytes("meterspersecond", seq![109u8, 101u8, 116u8, 101u8, 114u8, 115u8, 112u8, 101u8, 114u8, 115u8, 101u8, 99u8, 111u8, 110u8, 100u8]);
    let l0: Seq<&str> = seq!["kmh", "kph", "kilometresperhour", "kilometersperhour"];
    assert(l0[0].spec_bytes() == seq![107u8, 109u8, 104u8]);
    assert(l0[1].spec_bytes() == seq![107u8, 112u8, 104u8]);
    assert(l0[2].spec_bytes() == seq![107u8, 105u8, 108u8, 111u8, 109u8, 101u8, 116u8, 114u8, 101u8, 115u8, 112u8, 101u8, 114u8, 104u8, 111u8, 117u8, 114u8]);
    assert(l0[3].spec_bytes() == seq![107u8, 105u8, 108u8, 111u8, 109u8, 101u8, 116u8, 101u8, 114u8, 115u8, 112u8, 101u8, 114u8, 104u8, 111u8, 117u8, 114u8]);
    let l1: Seq<&str> = seq!["knots", "knot", "kts"];
    assert(l1[0].spec_bytes() == seq![107u8, 110u8, 111u8, 116u8, 115u8]);
    assert(l1[1].spec_bytes() == seq![107u8, 110u8, 111u8, 116u8]);
    assert(l1[2].spec_bytes() == seq![107u8, 116u8, 115u8]);
    let l2: Seq<&str> = seq!["mph", "milesperhour"];
    assert(l2[0].spec_bytes() == seq![109u8, 112u8, 104u8]);
    assert(l2[1].spec_bytes() == seq![109u8, 105u8, 108u8, 101u8, 115u8, 112u8, 101u8, 114u8, 104u8, 111u8, 117u8, 114u8]);
    let l3: Seq<&str> = seq!["ms", "metrespersecond", "meterspersecond"];
    assert(l3[0].spec_bytes() == seq![109u8, 115u8]);
    assert(l3[1].spec_bytes() == seq![109u8, 101u8, 116u8, 114u8, 101u8, 115u8, 112u8, 101u8, 114u8, 115u8, 101u8, 99u8, 111u8, 110u8, 100u8]);
    assert(l3[2].spec_bytes() == seq![109u8, 101u8, 116u8, 101u8, 114u8, 115u8, 112u8, 101u8, 114u8, 115u8, 101u8, 99u8, 111u8, 110u8, 100u8]);
}

/// The acceleration labels: a label whose normalised form is `g` or `gee` or `gravity` or `gravities` declares `StandardGravity`; `ms2` or `mps2` or `metrespersecondsquared` or `meterspersecondsquared` declares `MetresPerSecondSquared`; `fts2` or `fps2` or `feetpersecondsquared` declares `FeetPerSecondSquared`. Every
/// other label declares no such unit. The lists are disjoint, so each label names one unit.
pub proof fn law_acceleration_labels(unit: &str)
    ensures
        ({
            let n = normalised(unit.spec_bytes());
            &&& (n == seq![103u8] || n == seq![103u8, 101u8, 101u8] || n == seq![103u8, 114u8, 97u8, 118u8, 105u8, 116u8, 121u8] || n == seq![103u8, 114u8, 97u8, 118u8, 105u8, 116u8, 105u8, 101u8, 115u8]) ==> acceleration_unit_of(unit) == Some(AccelerationUnit::StandardGravity)
            &&& (n == seq![109u8, 115u8, 50u8] || n == seq![109u8, 112u8, 115u8, 50u8] || n == seq![109u8, 101u8, 116u8, 114u8, 101u8, 115u8, 112u8, 101u8, 114u8, 115u8, 101u8, 99u8, 111u8, 110u8, 100u8, 115u8, 113u8, 117u8, 97u8, 114u8, 101u8, 100u8] || n == seq![109u8, 101u8, 116u8, 101u8, 114u8, 115u8, 112u8, 101u8, 114u8, 115u8, 101u8, 99u8, 111u8, 110u8, 100u8, 115u8, 113u8, 117u8, 97u8, 114u8, 101u8, 100u8]) ==> acceleration_unit_of(unit) == Some(AccelerationUnit::MetresPerSecondSquared)
            &&& (n == seq![102u8, 116u8, 115u8, 50u8] || n == seq![102u8, 112u8, 115u8, 50u8] || n == seq![102u8, 101u8, 101u8, 116u8, 112u8, 101u8, 114u8, 115u8, 101u8, 99u8, 111u8, 110u8, 100u8, 115u8, 113u8, 117u8, 97u8, 114u8, 101u8, 100u8]) ==> acceleration_unit_of(unit) == Some(AccelerationUnit::FeetPerSecondSquared)
            &&& !(n == seq![103u8] || n == seq![103u8, 101u8, 101u8] || n == seq![103u8, 114u8, 97u8, 118u8, 105u8, 116u8, 121u8] || n == seq![103u8, 114u8, 97u8, 118u8, 105u8, 116u8, 105u8, 101u8, 115u8] || n == seq![109u8, 115u8, 50u8] || n == seq![109u8, 112u8, 115u8, 50u8] || n == seq![109u8, 101u8, 116u8, 114u8, 101u8, 115u8, 112u8, 101u8, 114u8, 115u8, 101u8, 99u8, 111u8, 110u8, 100u8, 115u8, 113u8, 117u8, 97u8, 114u8, 101u8, 100u8] || n == seq![109u8, 101u8, 116u8, 101u8, 114u8, 115u8, 112u8, 101u8, 114u8, 115u8, 101u8, 99u8, 111u8, 110u8, 100u8, 115u8, 113u8, 117u8, 97u8, 114u8, 101u8, 100u8] || n == seq![102u8, 116u8, 115u8, 50u8] || n == seq![102u8, 112u8, 115u8, 50u8] || n == seq![102u8, 101u8, 101u8, 116u8, 112u8, 101u8, 114u8, 115u8, 101u8, 99u8, 111u8, 110u8, 100u8, 115u8, 113u8, 117u8, 97u8, 114u8, 101u8, 100u8]) ==> acceleration_unit_of(unit) is None
        }),
{
    reveal_strlit("g");
    lemma_literal_bytes("g", seq![103u8]);
    reveal_strlit("gee");
    lemma_literal_bytes("gee", seq![103u8, 101u8, 101u8]);
    reveal_strlit("gravity");
    lemma_literal_bytes("gravity", seq![103u8, 114u8, 97u8, 118u8, 105u8, 116u8, 121u8]);
    reveal_strlit("gravities");
    lemma_literal_bytes("gravities", seq![103u8, 114u8, 97u8, 118u8, 105u8, 116u8, 105u8, 101u8, 115u8]);
    reveal_strlit("ms2");
    lemma_literal_bytes("ms2", seq![109u8, 115u8, 50u8]);
    reveal_strlit("mps2");
    lemma_literal_bytes("mps2", seq![109u8, 112u8, 115u8, 50u8]);
    reveal_strlit("metrespersecondsquared");
    lemma_literal_bytes("metrespersecondsquared", seq![109u8, 101u8, 116u8, 114u8, 101u8, 115u8, 112u8, 101u8, 114u8, 115u8, 101u8, 99u8, 111u8, 110u8, 100u8, 115u8, 113u8, 117u8, 97u8, 114u8, 101u8, 100u8]);
    reveal_strlit("meterspersecondsquared");
    lemma_literal_bytes("meterspersecondsquared", seq![109u8, 101u8, 116u8, 101u8, 114u8, 115u8, 112u8, 101u8, 114u8, 115u8, 101u8, 99u8, 111u8, 110u8, 100u8, 115u8, 113u8, 117u8, 97u8, 114u8, 101u8, 100u8]);
    reveal_strlit("fts2");
    lemma_literal_bytes("fts2", seq![102u8, 116u8, 115u8, 50u8]);
    reveal_strlit("fps2");
    lemma_literal_bytes("fps2", seq![102u8, 112u8, 115u8, 50u8]);
    reveal_strlit("feetpersecondsquared");
    lemma_literal_bytes("feetpersecondsquared", seq![102u8, 101u8, 101u8, 116u8, 112u8, 101u8, 114u8, 115u8, 101u8, 99u8, 111u8, 110u8, 100u8, 115u8, 113u8, 117u8, 97u8, 114u8, 101u8, 100u8]);
    let l0: Seq<&str> = seq!["g", "gee", "gravity", "gravities"];
    assert(l0[0].spec_bytes() == seq![103u8]);
    assert(l0[1].spec_bytes() == seq![103u8, 101u8, 101u8]);
    assert(l0[2].spec_bytes() == seq![103u8, 114u8, 97u8, 118u8, 105u8, 116u8, 121u8]);
    assert(l0[3].spec_bytes() == seq![103u8, 114u8, 97u8, 118u8, 105u8, 116u8, 105u8, 101u8, 115u8]);
    let l1: Seq<&str> = seq!["ms2", "mps2", "metrespersecondsquared", "meterspersecondsquared"];
    assert(l1[0].spec_bytes() == seq![109u8, 115u8, 50u8]);
    assert(l1[1].spec_bytes() == seq![109u8, 112u8, 115u8, 50u8]);
    assert(l1[2].spec_bytes() == seq![109u8, 101u8, 116u8, 114u8, 101u8, 115u8, 112u8, 101u8, 114u8, 115u8, 101u8, 99u8, 111u8, 110u8, 100u8, 115u8, 113u8, 117u8, 97u8, 114u8, 101u8, 100u8]);
    assert(l1[3].spec_bytes() == seq![109u8, 101u8, 116u8, 101u8, 114u8, 115u8, 112u8, 101u8, 114u8, 115u8, 101u8, 99u8, 111u8, 110u8, 100u8, 115u8, 113u8, 117u8, 97u8, 114u8, 101u8, 100u8]);
    let l2: Seq<&str> = seq!["fts2", "fps2", "feetpersecondsquared"];
    assert(l2[0].spec_bytes() == seq![102u8, 116u8, 115u8, 50u8]);
    assert(l2[1].spec_bytes() == seq![102u8, 112u8, 115u8, 50u8]);
    assert(l2[2].spec_bytes() == seq![102u8, 101u8, 101u8, 116u8, 112u8, 101u8, 114u8, 115u8, 101u8, 99u8, 111u8, 110u8, 100u8, 115u8, 113u8, 117u8, 97u8, 114u8, 101u8, 100u8]);
}

/// The angular-rate labels: a label whose normalised form is `degs` or `degsec` or `degreespersecond` or `degreessecond` declares `DegreesPerSecond`; `rads` or `radsec` or `radianspersecond` or `radianssecond` declares `RadiansPerSecond`. Every
/// other label declares no such unit. The lists are disjoint, so each label names one unit.
pub proof fn law_angular_rate_labels(unit: &str)
    ensures
        ({
            let n = normalised(unit.spec_bytes());
            &&& (n == seq![100u8, 101u8, 103u8, 115u8] || n == seq![100u8, 101u8, 103u8, 115u8, 101u8, 99u8] || n == seq![100u8, 101u8, 103u8, 114u8, 101u8, 101u8, 115u8, 112u8, 101u8, 114u8, 115u8, 101u8, 99u8, 111u8, 110u8, 100u8] || n == seq![100u8, 101u8, 103u8, 114u8, 101u8, 101u8, 115u8, 115u8, 101u8, 99u8, 111u8, 110u8, 100u8]) ==> angular_rate_unit_of(unit) == Some(AngularRateUnit::DegreesPerSecond)
            &&& (n == seq![114u8, 97u8, 100u8, 115u8] || n == seq![114u8, 97u8, 100u8, 115u8, 101u8, 99u8] || n == seq![114u8, 97u8, 100u8, 105u8, 97u8, 110u8, 115u8, 112u8, 101u8, 114u8, 115u8, 101u8, 99u8, 111u8, 110u8, 100u8] || n == seq![114u8, 97u8, 100u8, 105u8, 97u8, 110u8, 115u8, 115u8, 101u8, 99u8, 111u8, 110u8, 100u8]) ==> angular_rate_unit_of(unit) == Some(AngularRateUnit::RadiansPerSecond)
            &&& !(n == seq![100u8, 101u8, 103u8, 115u8] || n == seq![100u8, 101u8, 103u8, 115u8, 101u8, 99u8] || n == seq![100u8, 101u8, 103u8, 114u8, 101u8, 101u8, 115u8, 112u8, 101u8, 114u8, 115u8, 101u8, 99u8, 111u8, 110u8, 100u8] || n == seq![100u8, 101u8, 103u8, 114u8, 101u8, 101u8, 115u8, 115u8, 101u8, 99u8, 111u8, 110u8, 100u8] || n == seq![114u8, 97u8, 100u8, 115u8] || n == seq![114u8, 97u8, 100u8, 115u8, 101u8, 99u8] || n == seq![114u8, 97u8, 100u8, 105u8, 97u8, 110u8, 115u8, 112u8, 101u8, 114u8, 115u8, 101u8, 99u8, 111u8, 110u8, 100u8] || n == seq![114u8, 97u8, 100u8, 105u8, 97u8, 110u8, 115u8, 115u8, 101u8, 99u8, 111u8, 110u8, 100u8]) ==> angular_rate_unit_of(unit) is None
        }),
{
    reveal_strlit("degs");
    lemma_literal_bytes("degs", seq![100u8, 101u8, 103u8, 115u8]);
    reveal_strlit("degsec");
    lemma_literal_bytes("degsec", seq![100u8, 101u8, 103u8, 115u8, 101u8, 99u8]);
    reveal_strlit("degreespersecond");
    lemma_literal_bytes("degreespersecond", seq![100u8, 101u8, 103u8, 114u8, 101u8, 101u8, 115u8, 112u8, 101u8, 114u8, 115u8, 101u8, 99u8, 111u8, 110u8, 100u8]);
    reveal_strlit("degreessecond");
    lemma_literal_bytes("degreessecond", seq![100u8, 101u8, 103u8, 114u8, 101u8, 101u8, 115u8, 115u8, 101u8, 99u8, 111u8, 110u8, 100u8]);
    reveal_strlit("rads");
    lemma_literal_bytes("rads", seq![114u8, 97u8, 100u8, 115u8]);
    reveal_strlit("radsec");
    lemma_literal_bytes("radsec", seq![114u8, 97u8, 100u8, 115u8, 101u8, 99u8]);
    reveal_strlit("radianspersecond");
    lemma_literal_bytes("radianspersecond", seq![114u8, 97u8, 100u8, 105u8, 97u8, 110u8, 115u8, 112u8, 101u8, 114u8, 115u8, 101u8, 99u8, 111u8, 110u8, 100u8]);
    reveal_strlit("radianssecond");
    lemma_literal_bytes("radianssecond", seq![114u8, 97u8, 100u8, 105u8, 97u8, 110u8, 115u8, 115u8, 101u8, 99u8, 111u8, 110u8, 100u8]);
    let l0: Seq<&str> = seq!["degs", "degsec", "degreespersecond", "degreessecond"];
    assert(l0[0].spec_bytes() == seq![100u8, 101u8, 103u8, 115u8]);
    assert(l0[1].spec_bytes() == seq![100u8, 101u8, 103u8, 115u8, 101u8, 99u8]);
    assert(l0[2].spec_bytes() == seq![100u8, 101u8, 103u8, 114u8, 101u8, 101u8, 115u8, 112u8, 101u8, 114u8, 115u8, 101u8, 99u8, 111u8, 110u8, 100u8]);
    assert(l0[3].spec_bytes() == seq![100u8, 101u8, 103u8, 114u8, 101u8, 101u8, 115u8, 115u8, 101u8, 99u8, 111u8, 110u8, 100u8]);
    let l1: Seq<&str> = seq!["rads", "radsec", "radianspersecond", "radianssecond"];
    assert(l1[0].spec_bytes() == seq![114u8, 97u8, 100u8, 115u8]);
    assert(l1[1].spec_bytes() == seq![114u8, 97u8, 100u8, 115u8, 101u8, 99u8]);
    assert(l1[2].spec_bytes() == seq![114u8, 97u8, 100u8, 105u8, 97u8, 110u8, 115u8, 112u8, 101u8, 114u8, 115u8, 101u8, 99u8, 111u8, 110u8, 100u8]);
    assert(l1[3].spec_bytes() == seq![114u8, 97u8, 100u8, 105u8, 97u8, 110u8, 115u8, 115u8, 101u8, 99u8, 111u8, 110u8, 100u8]);
}

/// The length labels: a label whose normalised form is `m` or `metre` or `metres` or `meter` or `meters` declares `Metres`; `km` or `kilometre` or `kilometres` or `kilometer` or `kilometers` declares `Kilometres`; `ft` or `foot` or `feet` declares `Feet`; `mi` or `mile` or `miles` declares `Miles`. Every
/// other label declares no such unit. The lists are disjoint, so each label names one unit.
pub proof fn law_length_labels(unit: &str)
    ensures
        ({
            let n = normalised(unit.spec_bytes());
            &&& (n == seq![109u8] || n == seq![109u8, 101u8, 116u8, 114u8, 101u8] || n == seq![109u8, 101u8, 116u8, 114u8, 101u8, 115u8] || n == seq![109u8, 101u8, 116u8, 101u8, 114u8] || n == seq![109u8, 101u8, 116u8, 101u8, 114u8, 115u8]) ==> length_unit_of(unit) == Some(LengthUnit::Metres)
            &&& (n == seq![107u8, 109u8] || n == seq![107u8, 105u8, 108u8, 111u8, 109u8, 101u8, 116u8, 114u8, 101u8] || n == seq![107u8, 105u8, 108u8, 111u8, 109u8, 101u8, 116u8, 114u8, 101u8, 115u8] || n == seq![107u8, 105u8, 108u8, 111u8, 109u8, 101u8, 116u8, 101u8, 114u8] || n == seq![107u8, 105u8, 108u8, 111u8, 109u8, 101u8, 116u8, 101u8, 114u8, 115u8]) ==> length_unit_of(unit) == Some(LengthUnit::Kilometres)
            &&& (n == seq![102u8, 116u8] || n == seq![102u8, 111u8, 111u8, 116u8] || n == seq![102u8, 101u8, 101u8, 116u8]) ==> length_unit_of(unit) == Some(LengthUnit::Feet)
            &&& (n == seq![109u8, 105u8] || n == seq![109u8, 105u8, 108u8, 101u8] || n == seq![109u8, 105u8, 108u8, 101u8, 115u8]) ==> length_unit_of(unit) == Some(LengthUnit::Miles)
            &&& !(n == seq![109u8] || n == seq![109u8, 101u8, 116u8, 114u8, 101u8] || n == seq![109u8, 101u8, 116u8, 114u8, 101u8, 115u8] || n == seq![109u8, 101u8, 116u8, 101u8, 114u8] || n == seq![109u8, 101u8, 116u8, 101u8, 114u8, 115u8] || n == seq![107u8, 109u8] || n == seq![107u8, 105u8, 108u8, 111u8, 109u8, 101u8, 116u8, 114u8, 101u8] || n == seq![107u8, 105u8, 108u8, 111u8, 109u8, 101u8, 116u8, 114u8, 101u8, 115u8] || n == seq![107u8, 105u8, 108u8, 111u8, 109u8, 101u8, 116u8, 101u8, 114u8] || n == seq![107u8, 105u8, 108u8, 111u8, 109u8, 101u8, 116u8, 101u8, 114u8, 115u8] || n == seq![102u8, 116u8] || n == seq![102u8, 111u8, 111u8, 116u8] || n == seq![102u8, 101u8, 101u8, 116u8] || n == seq![109u8, 105u8] || n == seq![109u8, 105u8, 108u8, 101u8] || n == seq![109u8, 105u8, 108u8, 101u8, 115u8]) ==> length_unit_of(unit) is None
        }),
{
    reveal_strlit("m");
    lemma_literal_bytes("m", seq![109u8]);
    reveal_strlit("metre");
    lemma_literal_bytes("metre", seq![109u8, 101u8, 116u8, 114u8, 101u8]);
    reveal_strlit("metres");
    lemma_literal_bytes("metres", seq![109u8, 101u8, 116u8, 114u8, 101u8, 115u8]);
    reveal_strlit("meter");
    lemma_literal_bytes("meter", seq![109u8, 101u8, 116u8, 101u8, 114u8]);
    reveal_strlit("meters");
    lemma_literal_bytes("meters", seq![109u8, 101u8, 116u8, 101u8, 114u8, 115u8]);
    reveal_strlit("km");
    lemma_literal_bytes("km", seq![107u8, 109u8]);
    reveal_strlit("kilometre");
    lemma_literal_bytes("kilometre", seq![107u8, 105u8, 108u8, 111u8, 109u8, 101u8, 116u8, 114u8, 101u8]);
    reveal_strlit("kilometres");
    lemma_literal_bytes("kilometres", seq![107u8, 105u8, 108u8, 111u8, 109u8, 101u8, 116u8, 114u8, 101u8, 115u8]);
    reveal_strlit("kilometer");
    lemma_literal_bytes("kilometer", seq![107u8, 105u8, 108u8, 111u8, 109u8, 101u8, 116u8, 101u8, 114u8]);
    reveal_strlit("kilometers");
    lemma_literal_bytes("kilometers", seq![107u8, 105u8, 108u8, 111u8, 109u8, 101u8, 116u8, 101u8, 114u8, 115u8]);
    reveal_strlit("ft");
    lemma_literal_bytes("ft", seq![102u8, 116u8]);
    reveal_strlit("foot");
    lemma_literal_bytes("foot", seq![102u8, 111u8, 111u8, 116u8]);
    reveal_strlit("feet");
    lemma_literal_bytes("feet", seq![102u8, 101u8, 101u8, 116u8]);
    reveal_strlit("mi");
    lemma_literal_bytes("mi", seq![109u8, 105u8]);
    reveal_strlit("mile");
    lemma_literal_bytes("mile", seq![109u8, 105u8, 108u8, 101u8]);
    reveal_strlit("miles");
    lemma_literal_bytes("miles", seq![109u8, 105u8, 108u8, 101u8, 115u8]);
    let l0: Seq<&str> = seq!["m", "metre", "metres", "meter", "meters"];
    assert(l0[0].spec_bytes() == seq![109u8]);
    assert(l0[1].spec_bytes() == seq![109u8, 101u8, 116u8, 114u8, 101u8]);
    assert(l0[2].spec_bytes() == seq![109u8, 101u8, 116u8, 114u8, 101u8, 115u8]);
    assert(l0[3].spec_bytes() == seq![109u8, 101u8, 116u8, 101u8, 114u8]);
    assert(l0[4].spec_bytes() == seq![109u8, 101u8, 116u8, 101u8, 114u8, 115u8]);
    let l1: Seq<&str> = seq!["km", "kilometre", "kilometres", "kilometer", "kilometers"];
    assert(l1[0].spec_bytes() == seq![107u8, 109u8]);
    assert(l1[1].spec_bytes() == seq![107u8, 105u8, 108u8, 111u8, 109u8, 101u8, 116u8, 114u8, 101u8]);
    assert(l1[2].spec_bytes() == seq![107u8, 105u8, 108u8, 111u8, 109u8, 101u8, 116u8, 114u8, 101u8, 115u8]);
    assert(l1[3].spec_bytes() == seq![107u8, 105u8, 108u8, 111u8, 109u8, 101u8, 116u8, 101u8, 114u8]);
    assert(l1[4].spec_bytes() == seq![107u8, 105u8, 108u8, 111u8, 109u8, 101u8, 116u8, 101u8, 114u8, 115u8]);
    let l2: Seq<&str> = seq!["ft", "foot", "feet"];
    assert(l2[0].spec_bytes() == seq![102u8, 116u8]);
    assert(l2[1].spec_bytes() == seq![102u8, 111u8, 111u8, 116u8]);
    assert(l2[2].spec_bytes() == seq![102u8, 101u8, 101u8, 116u8]);
    let l3: Seq<&str> = seq!["mi", "mile", "miles"];
    assert(l3[0].spec_bytes() == seq![109u8, 105u8]);
    assert(l3[1].spec_bytes() == seq![109u8, 105u8, 108u8, 101u8]);
    assert(l3[2].spec_bytes() == seq![109u8, 105u8, 108u8, 101u8, 115u8]);
}

} // verus!
