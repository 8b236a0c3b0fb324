//! The range-hint watcher's rule handling: label rules published by the
//! placement service are filtered for the cache tag, and their hex-encoded
//! key ranges are decoded into load requests.

use vstd::prelude::*;

use crate::gc::BackgroundRunnerCore;
use crate::region::Region;
use crate::region_manager::{load_regions_fold, spec_load_region, LoadError};

verus! {

/// One label of a rule.
pub struct RegionLabel {
    pub key: Vec<u8>,
    pub value: Vec<u8>,
}

/// One hex-encoded key range of a rule.
pub struct KeyRangeRule {
    pub start_key: Vec<u8>,
    pub end_key: Vec<u8>,
}

/// A label rule as the placement service publishes it.
pub struct LabelRule {
    pub labels: Vec<RegionLabel>,
    pub data: Vec<KeyRangeRule>,
}

/// A decoded key range a rule asks the cache to load.
pub struct DecodedRange {
    pub start: Vec<u8>,
    pub end: Vec<u8>,
}

/// The label key that marks caching rules: the bytes of "cache".
pub open spec fn cache_key_bytes() -> Seq<u8> {
    seq![99u8, 97u8, 99u8, 104u8, 101u8]
}

/// The label value that requests caching: the bytes of "always".
pub open spec fn always_value_bytes() -> Seq<u8> {
    seq![97u8, 108u8, 119u8, 97u8, 121u8, 115u8]
}

fn is_cache_key(v: &Vec<u8>) -> (r: bool)
    ensures
        r == (v@ == cache_key_bytes()),
{
    if v.len() != 5 {
        assert(v@ != cache_key_bytes());
        return false;
    }
    let r = v[0] == 99 && v[1] == 97 && v[2] == 99 && v[3] == 104 && v[4] == 101;
    proof {
        if r {
            assert(v@ =~= cache_key_bytes());
        } else {
            assert(v@ != cache_key_bytes());
        }
    }
    r
}

fn is_always_value(v: &Vec<u8>) -> (r: bool)
    ensures
        r == (v@ == always_value_bytes()),
{
    if v.len() != 6 {
        assert(v@ != always_value_bytes());
        return false;
    }
    let r = v[0] == 97 && v[1] == 108 && v[2] == 119 && v[3] == 97 && v[4] == 121 && v[5]
        == 115;
    proof {
        if r {
            assert(v@ =~= always_value_bytes());
        } else {
            assert(v@ != always_value_bytes());
        }
    }
    r
}

/// Whether any label tags the rule for the cache at all: the watcher's
/// subscription filter.
pub open spec fn spec_rule_tagged_cache(labels: Seq<(Seq<u8>, Seq<u8>)>) -> bool {
    exists|i: int| 0 <= i < labels.len() && (#[trigger] labels[i]).0 == cache_key_bytes()
}

/// Whether some label asks for caching outright.
pub open spec fn spec_rule_requests_cache(labels: Seq<(Seq<u8>, Seq<u8>)>) -> bool {
    exists|i: int|
        0 <= i < labels.len() && (#[trigger] labels[i]).0 == cache_key_bytes() && labels[i].1
            == always_value_bytes()
}

impl View for RegionLabel {
    type V = (Seq<u8>, Seq<u8>);

    open spec fn view(&self) -> (Seq<u8>, Seq<u8>) {
        (self.key@, self.value@)
    }
}

impl View for KeyRangeRule {
    type V = (Seq<u8>, Seq<u8>);

    open spec fn view(&self) -> (Seq<u8>, Seq<u8>) {
        (self.start_key@, self.end_key@)
    }
}

impl LabelRule {
    pub open spec fn labels_view(&self) -> Seq<(Seq<u8>, Seq<u8>)> {
        self.labels@.map_values(|l: RegionLabel| l@)
    }

    pub open spec fn data_view(&self) -> Seq<(Seq<u8>, Seq<u8>)> {
        self.data@.map_values(|d: KeyRangeRule| d@)
    }

    /// The subscription keeps a rule only when some label carries the
    /// cache tag.
    pub fn tagged_cache(&self) -> (r: bool)
        ensures
            r == spec_rule_tagged_cache(self.labels_view()),
    {
        let ghost lv = self.labels_view();
        let mut i: usize = 0;
        while i < self.labels.len()
            invariant
                i <= lv.len(),
                lv == self.labels@.map_values(|l: RegionLabel| l@),
                lv.len() == self.labels@.len(),
                forall|j: int| 0 <= j < i ==> (#[trigger] lv[j]).0 != cache_key_bytes(),
            decreases lv.len() - i,
        {
            if is_cache_key(&self.labels[i].key) {
                proof {
                    assert(lv[i as int] == self.labels@[i as int]@);
                }
                return true;
            }
            i = i + 1;
        }
        false
    }

    /// Whether the rule asks the cache to load its ranges.
    pub fn requests_cache(&self) -> (r: bool)
        ensures
            r == spec_rule_requests_cache(self.labels_view()),
    {
        let ghost lv = self.labels_view();
        let mut i: usize = 0;
        while i < self.labels.len()
            invariant
                i <= lv.len(),
                lv == self.labels@.map_values(|l: RegionLabel| l@),
                lv.len() == self.labels@.len(),
                forall|j: int|
                    0 <= j < i ==> !((#[trigger] lv[j]).0 == cache_key_bytes() && lv[j].1
                        == always_value_bytes()),
            decreases lv.len() - i,
        {
            if is_cache_key(&self.labels[i].key) && is_always_value(&self.labels[i].value) {
                proof {
                    assert(lv[i as int] == self.labels@[i as int]@);
                }
                return true;
            }
            i = i + 1;
        }
        false
    }
}

/// Whether `b` is the ASCII code of a hex digit.
pub open spec fn is_hex_digit(b: u8) -> bool {
    (48 <= b <= 57) || (97 <= b <= 102) || (65 <= b <= 70)
}

/// The value of a hex digit.
pub open spec fn hex_val(b: u8) -> u8
    recommends
        is_hex_digit(b),
{
    if 48 <= b <= 57 {
        (b - 48) as u8
    } else if 97 <= b <= 102 {
        (b - 97 + 10) as u8
    } else {
        (b - 65 + 10) as u8
    }
}

/// Whether `s` is well-formed hex text: an even count of hex digits.
pub open spec fn is_hex_text(s: Seq<u8>) -> bool {
    s.len() % 2 == 0 && forall|i: int| 0 <= i < s.len() ==> is_hex_digit(#[trigger] s[i])
}

/// The bytes that hex text denotes: one byte from every digit pair.
pub open spec fn hex_decoded(s: Seq<u8>) -> Seq<u8>
    recommends
        is_hex_text(s),
{
    Seq::new(s.len() / 2, |i: int| (hex_val(s[2 * i]) * 16 + hex_val(s[2 * i + 1])) as u8)
}

/// Relies on hex::decode: it accepts exactly an even count of hex digits
/// (upper or lower case) and yields one byte per pair, high digit first.
#[verifier::external_body]
fn hex_decode(s: &Vec<u8>) -> (r: Option<Vec<u8>>)
    ensures
        match r {
            Some(b) => is_hex_text(s@) && b@ == hex_decoded(s@),
            None => !is_hex_text(s@),
        },
{
    match hex::decode(s) {
        Ok(v) => Some(v),
        Err(_) => None,
    }
}

/// The ranges a rule decodes to, in order: a pair whose start or end is
/// not valid hex text is skipped.
pub open spec fn spec_decoded_ranges(data: Seq<(Seq<u8>, Seq<u8>)>) -> Seq<(Seq<u8>, Seq<u8>)>
    decreases data.len(),
{
    if data.len() == 0 {
        Seq::empty()
    } else {
        let rest = spec_decoded_ranges(data.skip(1));
        if is_hex_text(data[0].0) && is_hex_text(data[0].1) {
            seq![(hex_decoded(data[0].0), hex_decoded(data[0].1))] + rest
        } else {
            rest
        }
    }
}

proof fn lemma_decoded_ranges_push(data: Seq<(Seq<u8>, Seq<u8>)>, e: (Seq<u8>, Seq<u8>))
    ensures
        spec_decoded_ranges(data.push(e)) == if is_hex_text(e.0) && is_hex_text(e.1) {
            spec_decoded_ranges(data).push((hex_decoded(e.0), hex_decoded(e.1)))
        } else {
            spec_decoded_ranges(data)
        },
    decreases data.len(),
{
    if data.len() == 0 {
        assert(data.push(e)[0] == e);
        assert(data.push(e).skip(1) =~= Seq::<(Seq<u8>, Seq<u8>)>::empty());
        assert(spec_decoded_ranges(data.push(e).skip(1)) == Seq::<(Seq<u8>, Seq<u8>)>::empty());
        assert(spec_decoded_ranges(data) == Seq::<(Seq<u8>, Seq<u8>)>::empty());
        if is_hex_text(e.0) && is_hex_text(e.1) {
            assert(seq![(hex_decoded(e.0), hex_decoded(e.1))] + Seq::<
                (Seq<u8>, Seq<u8>),
            >::empty() =~= Seq::<(Seq<u8>, Seq<u8>)>::empty().push((hex_decoded(e.0),
                hex_decoded(e.1))));
        }
    } else {
        assert(data.push(e)[0] == data[0]);
        assert(data.push(e).skip(1) =~= data.skip(1).push(e));
        lemma_decoded_ranges_push(data.skip(1), e);
        if is_hex_text(data[0].0) && is_hex_text(data[0].1) {
            if is_hex_text(e.0) && is_hex_text(e.1) {
                assert(seq![(hex_decoded(data[0].0), hex_decoded(data[0].1))]
                    + spec_decoded_ranges(data.skip(1)).push((hex_decoded(e.0), hex_decoded(
                    e.1))) =~= (seq![(hex_decoded(data[0].0), hex_decoded(data[0].1))]
                    + spec_decoded_ranges(data.skip(1))).push((hex_decoded(e.0), hex_decoded(
                    e.1))));
            }
        }
    }
}

/// Decodes the key ranges a rule asks the cache to load. A rule that does
/// not request caching yields nothing; a range that is not valid hex text
/// is skipped, and the rest of the rule still applies.
pub fn parse_hint_ranges(rule: &LabelRule) -> (out: Vec<DecodedRange>)
    ensures
        out@.map_values(|r: DecodedRange| (r.start@, r.end@)) == if spec_rule_requests_cache(
            rule.labels_view()) {
            spec_decoded_ranges(rule.data_view())
        } else {
            Seq::<(Seq<u8>, Seq<u8>)>::empty()
        },
{
    let mut out: Vec<DecodedRange> = Vec::new();
    if !rule.requests_cache() {
        proof {
            assert(out@.map_values(|r: DecodedRange| (r.start@, r.end@)) =~= Seq::<
                (Seq<u8>, Seq<u8>),
            >::empty());
        }
        return out;
    }
    let ghost dv = rule.data_view();
    let mut i: usize = 0;
    proof {
        assert(dv.take(0) =~= Seq::<(Seq<u8>, Seq<u8>)>::empty());
    }
    while i < rule.data.len()
        invariant
            i <= dv.len(),
            dv == rule.data@.map_values(|d: KeyRangeRule| d@),
            dv.len() == rule.data@.len(),
            out@.map_values(|r: DecodedRange| (r.start@, r.end@)) == spec_decoded_ranges(
                dv.take(i as int)),
        decreases dv.len() - i,
    {
        let ghost outs = out@.map_values(|r: DecodedRange| (r.start@, r.end@));
        proof {
            assert(dv.take(i as int + 1) =~= dv.take(i as int).push(dv[i as int]));
            lemma_decoded_ranges_push(dv.take(i as int), dv[i as int]);
            assert(dv[i as int] == rule.data@[i as int]@);
        }
        let start = hex_decode(&rule.data[i].start_key);
        let end = hex_decode(&rule.data[i].end_key);
        match (start, end) {
            (Some(s), Some(e)) => {
                out.push(DecodedRange { start: s, end: e });
                proof {
                    assert(out@.map_values(|r: DecodedRange| (r.start@, r.end@)) =~= outs.push(
                        (hex_decoded(dv[i as int].0), hex_decoded(dv[i as int].1))));
                }
            },
            _ => {},
        }
        i = i + 1;
    }
    proof {
        assert(dv.take(i as int) =~= dv);
    }
    out
}

/// Offers every region the information provider reported inside a hinted
/// range to `load_region`, in order; a region already cached, or
/// overlapping one, is refused by the manager and skipped.
pub fn load_hint_regions(core: &mut BackgroundRunnerCore, regions: Vec<Region>)
    requires
        old(core).wf(),
    ensures
        final(core).wf(),
        final(core).engine == old(core).engine,
        final(core).range_manager.hist_view() == old(core).range_manager.hist_view(),
        final(core).range_manager.written_view() == old(core).range_manager.written_view(),
        final(core).range_manager.spec_regions_in_gc() == old(
            core).range_manager.spec_regions_in_gc(),
        final(core).range_manager.regions_view() == load_regions_fold(
            old(core).range_manager.regions_view(), regions@.map_values(|r: Region| r@)),
{
    let ghost s0 = old(core).range_manager.regions_view();
    let ghost rsv = regions@.map_values(|r: Region| r@);
    let mut i: usize = 0;
    let n = regions.len();
    let mut rest = regions;
    proof {
        assert(rsv.skip(0) =~= rsv);
    }
    while i < n
        invariant
            core.wf(),
            core.engine == old(core).engine,
            core.range_manager.hist_view() == old(core).range_manager.hist_view(),
            core.range_manager.written_view() == old(core).range_manager.written_view(),
            core.range_manager.spec_regions_in_gc() == old(
                core).range_manager.spec_regions_in_gc(),
            n == rsv.len(),
            n == rest@.len() + i,
            rest@.map_values(|r: Region| r@) == rsv.skip(i as int),
            load_regions_fold(s0, rsv) == load_regions_fold(
                core.range_manager.regions_view(), rsv.skip(i as int)),
        decreases n - i,
    {
        let ghost cur = core.range_manager.regions_view();
        let ghost prev = rest@;
        let r = rest.remove(0);
        proof {
            assert(prev.map_values(|x: Region| x@) == rsv.skip(i as int));
            assert(r@ == prev[0]@);
            assert(prev.map_values(|x: Region| x@)[0] == prev[0]@);
            assert(r@ == rsv.skip(i as int)[0]);
            assert(rsv.skip(i as int)[0] == rsv[i as int]);
            let rm = rest@.map_values(|x: Region| x@);
            assert forall|j: int| 0 <= j < rm.len() implies #[trigger] rm[j] == rsv.skip(
                i as int + 1)[j] by {
                assert(rest@[j] == prev[j + 1]);
                assert(rm[j] == rest@[j]@);
                assert(prev.map_values(|x: Region| x@)[j + 1] == prev[j + 1]@);
                assert(rsv.skip(i as int)[j + 1] == rsv[i as int + j + 1]);
                assert(rsv.skip(i as int + 1)[j] == rsv[i as int + 1 + j]);
            }
            assert(rm =~= rsv.skip(i as int + 1));
            assert(rsv.skip(i as int).skip(1) =~= rsv.skip(i as int + 1));
        }
        let outcome = core.range_manager.load_region(r);
        proof {
            assert(core.range_manager.regions_view() == spec_load_region(cur, rsv[i as int]));
        }
        match outcome {
            Ok(()) => {},
            Err(LoadError::AlreadyExists) => {},
        }
        i = i + 1;
    }
    proof {
        assert(rsv.skip(n as int) =~= Seq::<crate::region::RegionView>::empty());
    }
}

} // verus!
