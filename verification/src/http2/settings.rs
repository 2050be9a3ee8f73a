//! HTTP/2 settings: identifiers, the legal range of each value, and the map
//! of current settings of one endpoint.

use vstd::prelude::*;
use std::collections::HashMap;
use super::frames::ErrorCode;

verus! {

broadcast use vstd::std_specs::hash::group_hash_axioms;

/// The settings identifiers of HTTP/2.
#[derive(Debug, Clone, Copy, PartialEq, Eq, Structural)]
pub enum SettingsIdentifier {
    HeaderTableSize,
    EnablePush,
    MaxConcurrentStreams,
    InitialWindowSize,
    MaxFrameSize,
    MaxHeaderListSize,
}

/// One identifier/value pair as carried by a SETTINGS frame.
#[derive(Debug, Clone, Copy, PartialEq, Eq, Structural)]
pub struct SettingParam {
    pub identifier: SettingsIdentifier,
    pub value: u32,
}

/// The largest flow-control window size.
pub const MAX_WINDOW_SIZE: u32 = 2147483647;

impl SettingsIdentifier {
    /// The identifier's value on the wire.
    pub open spec fn spec_code(self) -> u16 {
        match self {
            SettingsIdentifier::HeaderTableSize => 0x1,
            SettingsIdentifier::EnablePush => 0x2,
            SettingsIdentifier::MaxConcurrentStreams => 0x3,
            SettingsIdentifier::InitialWindowSize => 0x4,
            SettingsIdentifier::MaxFrameSize => 0x5,
            SettingsIdentifier::MaxHeaderListSize => 0x6,
        }
    }

    /// The identifier with a given wire value, if any.
    pub open spec fn spec_from_code(v: u16) -> Option<SettingsIdentifier> {
        if v == 0x1 { Some(SettingsIdentifier::HeaderTableSize) }
        else if v == 0x2 { Some(SettingsIdentifier::EnablePush) }
        else if v == 0x3 { Some(SettingsIdentifier::MaxConcurrentStreams) }
        else if v == 0x4 { Some(SettingsIdentifier::InitialWindowSize) }
        else if v == 0x5 { Some(SettingsIdentifier::MaxFrameSize) }
        else if v == 0x6 { Some(SettingsIdentifier::MaxHeaderListSize) }
        else { None }
    }

    /// The identifier's value on the wire.
    #[verifier::when_used_as_spec(spec_code)]
    pub fn code(self) -> (c: u16)
        ensures
            c == self.spec_code(),
    {
        match self {
            SettingsIdentifier::HeaderTableSize => 0x1,
            SettingsIdentifier::EnablePush => 0x2,
            SettingsIdentifier::MaxConcurrentStreams => 0x3,
            SettingsIdentifier::InitialWindowSize => 0x4,
            SettingsIdentifier::MaxFrameSize => 0x5,
            SettingsIdentifier::MaxHeaderListSize => 0x6,
        }
    }

    /// The identifier with a given wire value; `None` for an unknown value.
    pub fn try_from_code(v: u16) -> (r: Option<SettingsIdentifier>)
        ensures
            r == Self::spec_from_code(v),
    {
        if v == 0x1 { Some(SettingsIdentifier::HeaderTableSize) }
        else if v == 0x2 { Some(SettingsIdentifier::EnablePush) }
        else if v == 0x3 { Some(SettingsIdentifier::MaxConcurrentStreams) }
        else if v == 0x4 { Some(SettingsIdentifier::InitialWindowSize) }
        else if v == 0x5 { Some(SettingsIdentifier::MaxFrameSize) }
        else if v == 0x6 { Some(SettingsIdentifier::MaxHeaderListSize) }
        else { None }
    }

    /// Whether `value` is legal for this setting: `Ok(value)` if so, else the
    /// error code that the violation calls for (RFC 7540 section 6.5.2).
    pub open spec fn spec_is_valid_value(self, value: u32) -> Result<u32, ErrorCode> {
        match self {
            SettingsIdentifier::EnablePush =>
                if value <= 1 { Ok(value) } else { Err(ErrorCode::ProtocolError) },
            SettingsIdentifier::InitialWindowSize =>
                if value <= 2147483647 { Ok(value) } else { Err(ErrorCode::FlowControlError) },
            SettingsIdentifier::MaxFrameSize =>
                if 16384 <= value && value <= 16777215 { Ok(value) } else { Err(ErrorCode::ProtocolError) },
            _ => Ok(value),
        }
    }

    /// Checks a value against the legal range of this setting.
    pub fn is_valid_value(&self, value: u32) -> (r: Result<u32, ErrorCode>)
        ensures
            r == self.spec_is_valid_value(value),
    {
        // (identifier, min, max, error) for the settings whose values are bounded
        let ranges: [(SettingsIdentifier, u32, u32, ErrorCode); 3] = [
            (SettingsIdentifier::EnablePush, 0, 1, ErrorCode::ProtocolError),
            (SettingsIdentifier::InitialWindowSize, 0, 2147483647, ErrorCode::FlowControlError),
            (SettingsIdentifier::MaxFrameSize, 16384, 16777215, ErrorCode::ProtocolError),
        ];
        let mut i: usize = 0;
        while i < 3
            invariant
                0 <= i <= 3,
                ranges@ == seq![
                    (SettingsIdentifier::EnablePush, 0u32, 1u32, ErrorCode::ProtocolError),
                    (SettingsIdentifier::InitialWindowSize, 0u32, 2147483647u32, ErrorCode::FlowControlError),
                    (SettingsIdentifier::MaxFrameSize, 16384u32, 16777215u32, ErrorCode::ProtocolError),
                ],
                forall|j: int| 0 <= j < i ==> ranges@[j].0 != *self,
            decreases 3 - i,
        {
            let (id, min, max, err) = ranges[i];
            if id == *self {
                if min <= value && value <= max {
                    return Ok(value);
                } else {
                    return Err(err);
                }
            }
            i = i + 1;
        }
        Ok(value)
    }
}

/// The settings of one endpoint, keyed by identifier code.
pub struct SettingsMap(HashMap<u16, u32>);

/// The identifier codes occurring in the map belong to known identifiers.
pub open spec fn known_keys(m: Map<u16, u32>) -> bool {
    forall|k: u16| #[trigger] m.contains_key(k) ==> 1 <= k <= 6
}

/// The map after applying parameters in order, stopping at the first one
/// whose value is illegal; and whether all were applied.
pub open spec fn apply_params(m: Map<u16, u32>, ps: Seq<SettingParam>) -> (Map<u16, u32>, Result<(), ErrorCode>)
    decreases ps.len(),
{
    if ps.len() == 0 {
        (m, Ok(()))
    } else {
        let (m1, r1) = apply_params(m, ps.drop_last());
        match r1 {
            Err(e) => (m1, Err(e)),
            Ok(_) => {
                let p = ps.last();
                match p.identifier.spec_is_valid_value(p.value) {
                    Ok(v) => (m1.insert(p.identifier.spec_code(), v), Ok(())),
                    Err(e) => (m1, Err(e)),
                }
            },
        }
    }
}

/// The map holding the parameters' values, a later parameter overriding an
/// earlier one with the same identifier (no range check).
pub open spec fn params_map(ps: Seq<SettingParam>) -> Map<u16, u32>
    decreases ps.len(),
{
    if ps.len() == 0 {
        Map::empty()
    } else {
        params_map(ps.drop_last()).insert(ps.last().identifier.spec_code(), ps.last().value)
    }
}

/// The parameters for the identifiers with codes `1..=k` that occur in the
/// map, in code order.
pub open spec fn map_params_upto(m: Map<u16, u32>, k: u16) -> Seq<SettingParam>
    decreases k,
{
    if k == 0 {
        Seq::empty()
    } else {
        let prev = map_params_upto(m, (k - 1) as u16);
        if m.contains_key(k) && SettingsIdentifier::spec_from_code(k) is Some {
            prev.push(SettingParam { identifier: SettingsIdentifier::spec_from_code(k).unwrap(), value: m[k] })
        } else {
            prev
        }
    }
}

/// The default settings (RFC 7540 section 6.5.2).
pub open spec fn default_settings() -> Map<u16, u32> {
    map![1u16 => 4096u32, 2u16 => 1u32, 3u16 => 128u32, 4u16 => 65535u32, 5u16 => 16384u32, 6u16 => 0xffff_ffffu32]
}

impl View for SettingsMap {
    type V = Map<u16, u32>;

    closed spec fn view(&self) -> Map<u16, u32> {
        self.0@
    }
}

impl SettingsMap {
    #[verifier::type_invariant]
    closed spec fn inv(self) -> bool {
        known_keys(self.0@)
    }

    /// A settings map holding the default values.
    pub fn default() -> (s: Self)
        ensures
            s@ == default_settings(),
    {
        let mut s = SettingsMap(HashMap::new());
        // These fields exist for the whole life of a settings map.
        let r = s.set(SettingsIdentifier::HeaderTableSize, 4096);
        assert(r is Ok);
        let r = s.set(SettingsIdentifier::EnablePush, 1);
        assert(r is Ok);
        let r = s.set(SettingsIdentifier::MaxConcurrentStreams, 128);
        assert(r is Ok);
        let r = s.set(SettingsIdentifier::InitialWindowSize, 65535);
        assert(r is Ok);
        let r = s.set(SettingsIdentifier::MaxFrameSize, 16384);
        assert(r is Ok);
        let r = s.set(SettingsIdentifier::MaxHeaderListSize, u32::MAX);
        assert(r is Ok);
        assert(s@ =~= default_settings());
        s
    }

    /// Sets one value after checking its range; on an illegal value the map is
    /// left as it was and the range's error code is returned.
    pub fn set(&mut self, identifier: SettingsIdentifier, value: u32) -> (r: Result<(), ErrorCode>)
        ensures
            match identifier.spec_is_valid_value(value) {
                Ok(v) => r == Ok::<(), ErrorCode>(()) && final(self)@ == old(self)@.insert(identifier.spec_code(), v),
                Err(e) => r == Err::<(), ErrorCode>(e) && final(self)@ == old(self)@,
            },
    {
        proof { use_type_invariant(&*self); }
        let v = match identifier.is_valid_value(value) {
            Ok(v) => v,
            Err(e) => return Err(e),
        };
        let mut m: HashMap<u16, u32> = HashMap::new();
        std::mem::swap(&mut m, &mut self.0);
        m.insert(identifier.code(), v);
        self.0 = m;
        Ok(())
    }

    /// The value of a setting, if the map holds one.
    pub fn get(&self, identifier: SettingsIdentifier) -> (r: Option<u32>)
        ensures
            r == (if self@.contains_key(identifier.spec_code()) { Some(self@[identifier.spec_code()]) } else { None::<u32> }),
    {
        match self.0.get(&identifier.code()) {
            Some(v) => Some(*v),
            None => None,
        }
    }

    /// Takes over every value of `other`.
    pub fn update(&mut self, other: Self)
        ensures
            final(self)@ == old(self)@.union_prefer_right(other@),
    {
        proof {
            use_type_invariant(&*self);
            use_type_invariant(&other);
        }
        let ghost start = self@;
        let mut m: HashMap<u16, u32> = HashMap::new();
        std::mem::swap(&mut m, &mut self.0);
        let mut k: u16 = 1;
        while k <= 6
            invariant
                1 <= k <= 7,
                known_keys(m@),
                known_keys(other@),
                forall|j: u16| #[trigger] m@.contains_key(j) <==>
                    (start.contains_key(j) || (j < k && other@.contains_key(j))),
                forall|j: u16| #[trigger] m@.contains_key(j) ==>
                    m@[j] == (if j < k && other@.contains_key(j) { other@[j] } else { start[j] }),
            decreases 7 - k,
        {
            match other.0.get(&k) {
                Some(v) => {
                    m.insert(k, *v);
                },
                None => {},
            }
            k = k + 1;
        }
        assert(m@ =~= start.union_prefer_right(other@));
        self.0 = m;
    }

    /// Applies the parameters in order, each with its range check; stops at the
    /// first illegal value and returns its error, keeping what came before.
    pub fn update_with_vec(&mut self, other: &Vec<SettingParam>) -> (r: Result<(), ErrorCode>)
        ensures
            (final(self)@, r) == apply_params(old(self)@, other@),
    {
        let mut i: usize = 0;
        while i < other.len()
            invariant
                0 <= i <= other@.len(),
                (self@, Ok::<(), ErrorCode>(())) == apply_params(old(self)@, other@.take(i as int)),
            decreases other@.len() - i,
        {
            assert(other@.take(i + 1).drop_last() =~= other@.take(i as int));
            let setting = other[i];
            let r = self.set(setting.identifier, setting.value);
            if let Err(e) = r {
                assert(other@.take(i + 1).last() == setting);
                proof { lemma_apply_params_stops(old(self)@, other@, i as int + 1); }
                return Err(e);
            }
            i = i + 1;
        }
        assert(other@.take(i as int) =~= other@);
        Ok(())
    }

    /// A map holding the parameters' values, later ones overriding earlier ones;
    /// the values are not range-checked.
    pub fn from_params(params: Vec<SettingParam>) -> (s: Self)
        ensures
            s@ == params_map(params@),
    {
        let mut m: HashMap<u16, u32> = HashMap::new();
        let mut i: usize = 0;
        while i < params.len()
            invariant
                0 <= i <= params@.len(),
                m@ == params_map(params@.take(i as int)),
                known_keys(m@),
            decreases params@.len() - i,
        {
            assert(params@.take(i + 1).drop_last() =~= params@.take(i as int));
            let p = params[i];
            m.insert(p.identifier.code(), p.value);
            i = i + 1;
        }
        assert(params@.take(i as int) =~= params@);
        SettingsMap(m)
    }

    /// The map's entries as parameters, in identifier order.
    pub fn to_params(self) -> (ps: Vec<SettingParam>)
        ensures
            ps@ == map_params_upto(self@, 6),
    {
        let mut ps: Vec<SettingParam> = Vec::new();
        let mut k: u16 = 1;
        while k <= 6
            invariant
                1 <= k <= 7,
                ps@ == map_params_upto(self@, (k - 1) as u16),
            decreases 7 - k,
        {
            match self.0.get(&k) {
                Some(v) => {
                    let id = SettingsIdentifier::try_from_code(k);
                    match id {
                        Some(identifier) => {
                            ps.push(SettingParam { identifier, value: *v });
                        },
                        None => {},
                    }
                },
                None => {},
            }
            k = k + 1;
        }
        ps
    }
}

/// Once a parameter is refused, the ones after it change nothing.
proof fn lemma_apply_params_stops(m: Map<u16, u32>, ps: Seq<SettingParam>, i: int)
    requires
        0 < i <= ps.len(),
        apply_params(m, ps.take(i)).1 is Err,
    ensures
        apply_params(m, ps) == apply_params(m, ps.take(i)),
    decreases ps.len() - i,
{
    if i == ps.len() {
        assert(ps.take(i) =~= ps);
    } else {
        assert(ps.take(i + 1).drop_last() =~= ps.take(i));
        lemma_apply_params_stops(m, ps, i + 1);
    }
}

impl Clone for SettingsMap {
    fn clone(&self) -> (s: Self)
        ensures
            s@ == self@,
    {
        proof { use_type_invariant(self); }
        SettingsMap(self.0.clone())
    }
}


/// The parameters of the identifiers up to `k` hold exactly the map's entries
/// with codes `1..=k`.
proof fn lemma_params_upto(m: Map<u16, u32>, k: u16)
    requires
        k <= 6,
    ensures
        forall|c: u16| #[trigger] params_map(map_params_upto(m, k)).contains_key(c)
            <==> (1 <= c <= k && m.contains_key(c)),
        forall|c: u16| #[trigger] params_map(map_params_upto(m, k)).contains_key(c) ==>
            params_map(map_params_upto(m, k))[c] == m[c],
    decreases k,
{
    if k > 0 {
        lemma_params_upto(m, (k - 1) as u16);
        let prev = map_params_upto(m, (k - 1) as u16);
        if m.contains_key(k) {
            assert(SettingsIdentifier::spec_from_code(k) is Some);
            let id = SettingsIdentifier::spec_from_code(k).unwrap();
            assert(id.spec_code() == k);
            let ps = prev.push(SettingParam { identifier: id, value: m[k] });
            assert(map_params_upto(m, k) == ps);
            assert(ps.drop_last() =~= prev);
            assert(params_map(ps) == params_map(prev).insert(k, m[k]));
        } else {
            assert(map_params_upto(m, k) == prev);
        }
    } else {
        assert(params_map(map_params_upto(m, k)) =~= Map::<u16, u32>::empty());
    }
}

/// Turning a settings map into parameters and back gives the same map.
pub proof fn lemma_params_roundtrip(m: Map<u16, u32>)
    requires
        known_keys(m),
    ensures
        params_map(map_params_upto(m, 6)) == m,
{
    lemma_params_upto(m, 6);
    assert(params_map(map_params_upto(m, 6)) =~= m);
}

/// Whether every parameter has a legal value.
pub open spec fn params_legal(ps: Seq<SettingParam>) -> bool {
    forall|i: int| 0 <= i < ps.len() ==> (#[trigger] ps[i]).identifier.spec_is_valid_value(ps[i].value) is Ok
}

/// With legal values, updating with parameters is updating with the map they
/// make: a later parameter overrides an earlier one, and nothing fails.
pub proof fn lemma_update_with_legal_params(m: Map<u16, u32>, ps: Seq<SettingParam>)
    requires
        params_legal(ps),
    ensures
        apply_params(m, ps) == (m.union_prefer_right(params_map(ps)), Ok::<(), ErrorCode>(())),
    decreases ps.len(),
{
    if ps.len() == 0 {
        assert(m.union_prefer_right(params_map(ps)) =~= m);
    } else {
        let prev = ps.drop_last();
        assert(params_legal(prev)) by {
            assert forall|i: int| 0 <= i < prev.len() implies
                (#[trigger] prev[i]).identifier.spec_is_valid_value(prev[i].value) is Ok by {
                assert(prev[i] == ps[i]);
            }
        }
        lemma_update_with_legal_params(m, prev);
        let p = ps.last();
        assert(p == ps[ps.len() - 1]);
        assert(m.union_prefer_right(params_map(prev)).insert(p.identifier.spec_code(), p.value)
            =~= m.union_prefer_right(params_map(ps)));
    }
}


/// Whether a settings map holds all six identifiers, each with a legal value.
pub open spec fn settings_complete(m: Map<u16, u32>) -> bool {
    forall|id: SettingsIdentifier| #[trigger] m.contains_key(id.spec_code()) && id.spec_is_valid_value(m[id.spec_code()]) is Ok
}

/// The default settings hold all six identifiers, each with a legal value.
pub proof fn lemma_default_complete()
    ensures
        settings_complete(default_settings()),
{
    assert forall|id: SettingsIdentifier| #[trigger] default_settings().contains_key(id.spec_code())
        && id.spec_is_valid_value(default_settings()[id.spec_code()]) is Ok by {
        match id {
            SettingsIdentifier::HeaderTableSize => {},
            SettingsIdentifier::EnablePush => {},
            SettingsIdentifier::MaxConcurrentStreams => {},
            SettingsIdentifier::InitialWindowSize => {},
            SettingsIdentifier::MaxFrameSize => {},
            SettingsIdentifier::MaxHeaderListSize => {},
        }
    }
}

/// Setting a value keeps every identifier present with a legal value: a legal
/// value is stored, an illegal one changes nothing.
pub proof fn lemma_set_keeps_complete(m: Map<u16, u32>, identifier: SettingsIdentifier, value: u32)
    requires
        settings_complete(m),
    ensures
        settings_complete(match identifier.spec_is_valid_value(value) {
            Ok(v) => m.insert(identifier.spec_code(), v),
            Err(_) => m,
        }),
{
    match identifier.spec_is_valid_value(value) {
        Ok(v) => {
            let m2 = m.insert(identifier.spec_code(), v);
            assert forall|id: SettingsIdentifier| #[trigger] m2.contains_key(id.spec_code())
                && id.spec_is_valid_value(m2[id.spec_code()]) is Ok by {
                assert(m.contains_key(id.spec_code()));
                lemma_code_injective(id, identifier);
            }
        },
        Err(_) => {},
    }
}

/// Distinct identifiers have distinct codes.
proof fn lemma_code_injective(a: SettingsIdentifier, b: SettingsIdentifier)
    ensures
        a.spec_code() == b.spec_code() ==> a == b,
{
}

/// Updating with parameters, whether all of them are legal or not, keeps every
/// identifier present with a legal value.
pub proof fn lemma_update_keeps_complete(m: Map<u16, u32>, ps: Seq<SettingParam>)
    requires
        settings_complete(m),
    ensures
        settings_complete(apply_params(m, ps).0),
    decreases ps.len(),
{
    if ps.len() > 0 {
        lemma_update_keeps_complete(m, ps.drop_last());
        let (m1, r1) = apply_params(m, ps.drop_last());
        if r1 is Ok {
            lemma_set_keeps_complete(m1, ps.last().identifier, ps.last().value);
        }
    }
}


/// The identifier codes of parameters, in order.
pub open spec fn param_codes(ps: Seq<SettingParam>) -> Seq<u16> {
    ps.map_values(|p: SettingParam| p.identifier.spec_code())
}

/// The codes of the parameters up to `k` increase, and they are exactly the
/// map's codes in `1..=k`.
proof fn lemma_params_upto_codes(m: Map<u16, u32>, k: u16)
    requires
        k <= 6,
    ensures
        forall|i: int, j: int| 0 <= i < j < param_codes(map_params_upto(m, k)).len() ==>
            param_codes(map_params_upto(m, k))[i] < param_codes(map_params_upto(m, k))[j],
        forall|i: int| 0 <= i < param_codes(map_params_upto(m, k)).len() ==> param_codes(map_params_upto(m, k))[i] <= k,
        forall|c: u16| param_codes(map_params_upto(m, k)).contains(c) <==> (1 <= c <= k && m.contains_key(c)),
    decreases k,
{
    if k > 0 {
        lemma_params_upto_codes(m, (k - 1) as u16);
        let prev = map_params_upto(m, (k - 1) as u16);
        let pc = param_codes(prev);
        if m.contains_key(k) {
            assert(SettingsIdentifier::spec_from_code(k) is Some);
            let id = SettingsIdentifier::spec_from_code(k).unwrap();
            assert(id.spec_code() == k);
            let ps = prev.push(SettingParam { identifier: id, value: m[k] });
            assert(map_params_upto(m, k) == ps);
            assert(param_codes(ps) =~= pc.push(k));
            assert forall|c: u16| param_codes(ps).contains(c) <==> (1 <= c <= k && m.contains_key(c)) by {
                if pc.push(k).contains(c) && c != k {
                    let i = choose|i: int| 0 <= i < pc.push(k).len() && pc.push(k)[i] == c;
                    assert(pc[i] == c);
                }
                if pc.contains(c) {
                    let i = choose|i: int| 0 <= i < pc.len() && pc[i] == c;
                    assert(pc.push(k)[i] == c);
                }
                if c == k {
                    assert(pc.push(k)[pc.len() as int] == c);
                }
            }
        } else {
            assert(map_params_upto(m, k) == prev);
        }
    } else {
        assert(param_codes(map_params_upto(m, k)) =~= Seq::<u16>::empty());
    }
}

/// The parameters of a map name each of its identifiers exactly once, in code
/// order: no identifier twice, and as many parameters as the map has entries.
pub proof fn lemma_params_distinct(m: Map<u16, u32>)
    requires
        known_keys(m),
    ensures
        forall|i: int, j: int| 0 <= i < j < map_params_upto(m, 6).len() ==>
            map_params_upto(m, 6)[i].identifier != map_params_upto(m, 6)[j].identifier,
        map_params_upto(m, 6).len() == m.dom().len(),
{
    let ps = map_params_upto(m, 6);
    let cs = param_codes(ps);
    lemma_params_upto_codes(m, 6);
    assert forall|i: int, j: int| 0 <= i < j < ps.len() implies ps[i].identifier != ps[j].identifier by {
        assert(cs[i] < cs[j]);
    }
    assert(cs.no_duplicates()) by {
        assert forall|i: int, j: int| 0 <= i < cs.len() && 0 <= j < cs.len() && i != j implies cs[i] != cs[j] by {
            if i < j { assert(cs[i] < cs[j]); } else { assert(cs[j] < cs[i]); }
        }
    }
    cs.unique_seq_to_set();
    assert(cs.to_set() =~= m.dom()) by {
        assert forall|c: u16| cs.to_set().contains(c) <==> m.dom().contains(c) by {
            if m.dom().contains(c) {
                assert(1 <= c <= 6);
            }
        }
    }
}

} // verus!
