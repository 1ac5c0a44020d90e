use vstd::prelude::*;

use crate::record_shapes::opt_fact_model;
use crate::script_types::{opt_fact_view, string_views, ScriptFactModel, ScriptTypeFact};
use crate::text::{name_lt, str_eq, str_lt};
use crate::value_types::{RuntimeTypeFact, TypeModel};

verus! {

/// Sorted by name, equal names allowed.
pub open spec fn names_ascending(s: Seq<Seq<char>>) -> bool {
    forall|i: int, j: int| 0 <= i < j < s.len() ==> !name_lt(#[trigger] s[j], #[trigger] s[i])
}

/// The names of `(name, slot)` pairs.
pub open spec fn slot_names(s: Seq<(String, usize)>) -> Seq<Seq<char>> {
    Seq::new(s.len(), |i: int| s[i].0@)
}

/// The field names sorted, each paired with its position in the sorted list.
pub fn sorted_slots(fields: Vec<String>) -> (r: Vec<(String, usize)>)
    ensures
        r@.len() == fields@.len(),
        forall|i: int| 0 <= i < r@.len() ==> (#[trigger] r@[i]).1 == i,
        names_ascending(slot_names(r@)),
        slot_names(r@).to_multiset() == string_views(fields@).to_multiset(),
{
    let mut sorted: Vec<String> = Vec::new();
    let mut i: usize = 0;
    proof {
        assert(string_views(sorted@) =~= string_views(fields@.subrange(0, 0)));
    }
    while i < fields.len()
        invariant
            i <= fields.len(),
            sorted@.len() == i,
            names_ascending(string_views(sorted@)),
            string_views(sorted@).to_multiset() == string_views(fields@.subrange(0, i as int)).to_multiset(),
        decreases fields.len() - i,
    {
        let name = fields[i].clone();
        let mut pos: usize = 0;
        while pos < sorted.len() && !str_lt(name.as_str(), sorted[pos].as_str())
            invariant
                pos <= sorted.len(),
                forall|t: int| 0 <= t < pos ==> !name_lt(name@, (#[trigger] sorted@[t])@),
            decreases sorted.len() - pos,
        {
            pos = pos + 1;
        }
        let ghost before = sorted@;
        proof {
            if pos < sorted.len() {
                assert(name_lt(name@, sorted@[pos as int]@));
                assert forall|t: int| pos <= t < before.len() implies name_lt(name@, (#[trigger] before[t])@) by {
                    if t > pos {
                        assert(!name_lt(before[t]@, before[pos as int]@)) by {
                            assert(string_views(before)[t] == before[t]@);
                            assert(string_views(before)[pos as int] == before[pos as int]@);
                        }
                        crate::text::lemma_seq_lt_total(before[pos as int]@, before[t]@);
                        if before[pos as int]@ == before[t]@ {
                        } else {
                            crate::text::lemma_seq_lt_transitive(name@, before[pos as int]@, before[t]@);
                        }
                    }
                }
            }
        }
        sorted.insert(pos, name);
        proof {
            assert(string_views(sorted@) =~= string_views(before).insert(pos as int, name@));
            assert(fields@.subrange(0, i + 1) =~= fields@.subrange(0, i as int).push(fields@[i as int]));
            assert(string_views(fields@.subrange(0, i + 1)) =~= string_views(fields@.subrange(0, i as int)).push(name@));
            vstd::seq_lib::to_multiset_insert(string_views(before), pos as int, name@);
            vstd::seq_lib::to_multiset_build(string_views(fields@.subrange(0, i as int)), name@);
            let sv = string_views(sorted@);
            assert forall|a: int, b: int| 0 <= a < b < sv.len() implies !name_lt(#[trigger] sv[b], #[trigger] sv[a]) by {
                let bv = string_views(before);
                if a < pos && b < pos {
                    assert(sv[a] == bv[a] && sv[b] == bv[b]);
                } else if a > pos && b > pos {
                    assert(sv[a] == bv[a - 1] && sv[b] == bv[b - 1]);
                } else if a < pos && b == pos {
                    crate::text::lemma_seq_lt_asymmetric(bv[a], name@);
                    crate::text::lemma_seq_lt_total(bv[a], name@);
                } else if a < pos && b > pos {
                    assert(sv[a] == bv[a] && sv[b] == bv[b - 1]);
                } else if a == pos && b > pos {
                    assert(name_lt(name@, before[b - 1]@));
                    crate::text::lemma_seq_lt_asymmetric(name@, before[b - 1]@);
                }
            }
        }
        i = i + 1;
    }
    proof {
        assert(fields@.subrange(0, fields@.len() as int) =~= fields@);
    }
    let mut out: Vec<(String, usize)> = Vec::new();
    let mut k: usize = 0;
    while k < sorted.len()
        invariant
            k <= sorted.len(),
            out@.len() == k,
            forall|t: int| 0 <= t < k ==> (#[trigger] out@[t]).1 == t && out@[t].0@ == sorted@[t]@,
        decreases sorted.len() - k,
    {
        out.push((sorted[k].clone(), k));
        k = k + 1;
    }
    proof {
        assert(slot_names(out@) =~= string_views(sorted@));
        vstd::seq_lib::to_multiset_len(string_views(fields@));
        vstd::seq_lib::to_multiset_len(string_views(sorted@));
    }
    out
}

/// The slot of a script type's field, and what is known of the field's type.
#[derive(Debug)]
pub struct FieldSlotInfo {
    pub slot: usize,
    pub fact: Option<ScriptTypeFact>,
    pub value_type: Option<RuntimeTypeFact>,
}

pub struct FieldInfoModel {
    pub slot: nat,
    pub fact: Option<ScriptFactModel>,
    pub value_type: Option<TypeModel>,
}

impl View for FieldSlotInfo {
    type V = FieldInfoModel;

    open spec fn view(&self) -> FieldInfoModel {
        FieldInfoModel {
            slot: self.slot as nat,
            fact: opt_fact_view(self.fact),
            value_type: opt_fact_model(self.value_type),
        }
    }
}

#[derive(Debug)]
struct RecordFieldEntry {
    owner: String,
    field: String,
    info: FieldSlotInfo,
}

#[derive(Debug)]
struct EnumFieldEntry {
    owner: String,
    variant: String,
    field: String,
    info: FieldSlotInfo,
}

/// The fields of the script's record types and enum variants, by owner.
#[derive(Debug)]
pub struct ScriptFieldSlots {
    records: Vec<RecordFieldEntry>,
    enums: Vec<EnumFieldEntry>,
}

/// Record fields keyed by (owner type, field); enum fields keyed by
/// (owner type, variant, field).
pub struct SlotsModel {
    pub records: Map<(Seq<char>, Seq<char>), FieldInfoModel>,
    pub enums: Map<(Seq<char>, Seq<char>, Seq<char>), FieldInfoModel>,
}

spec fn record_key(e: RecordFieldEntry) -> (Seq<char>, Seq<char>) {
    (e.owner@, e.field@)
}

spec fn enum_key(e: EnumFieldEntry) -> (Seq<char>, Seq<char>, Seq<char>) {
    (e.owner@, e.variant@, e.field@)
}

spec fn records_model(s: Seq<RecordFieldEntry>) -> Map<(Seq<char>, Seq<char>), FieldInfoModel> {
    Map::new(
        |k: (Seq<char>, Seq<char>)| exists|i: int| 0 <= i < s.len() && record_key(#[trigger] s[i]) == k,
        |k: (Seq<char>, Seq<char>)| s[choose|i: int| 0 <= i < s.len() && record_key(#[trigger] s[i]) == k].info@,
    )
}

spec fn enums_model(s: Seq<EnumFieldEntry>) -> Map<(Seq<char>, Seq<char>, Seq<char>), FieldInfoModel> {
    Map::new(
        |k: (Seq<char>, Seq<char>, Seq<char>)| exists|i: int| 0 <= i < s.len() && enum_key(#[trigger] s[i]) == k,
        |k: (Seq<char>, Seq<char>, Seq<char>)| s[choose|i: int| 0 <= i < s.len() && enum_key(#[trigger] s[i]) == k].info@,
    )
}

impl View for ScriptFieldSlots {
    type V = SlotsModel;

    closed spec fn view(&self) -> SlotsModel {
        SlotsModel { records: records_model(self.records@), enums: enums_model(self.enums@) }
    }
}

/// The record types that have at least one field.
pub open spec fn record_owners(m: SlotsModel) -> Set<Seq<char>> {
    Set::new(|o: Seq<char>| exists|f: Seq<char>| #[trigger] m.records.dom().contains((o, f)))
}

pub open spec fn ends_with(s: Seq<char>, suffix: Seq<char>) -> bool {
    suffix.len() <= s.len() && s.subrange(s.len() - suffix.len(), s.len() as int) == suffix
}

/// `owner` is a record type whose last path segment is `name`.
pub open spec fn suffix_owner(m: SlotsModel, owner: Seq<char>, name: Seq<char>) -> bool {
    record_owners(m).contains(owner) && ends_with(owner, "::"@ + name)
}

/// The record type `name` refers to: a record type of that exact name, or
/// else the only record type whose path ends with `::name`.
pub open spec fn resolve_record_type(m: SlotsModel, name: Seq<char>) -> Option<Seq<char>> {
    if record_owners(m).contains(name) {
        Some(name)
    } else if exists|o: Seq<char>|
        suffix_owner(m, o, name) && forall|o2: Seq<char>| #[trigger] suffix_owner(m, o2, name) ==> o2 == o {
        Some(
            choose|o: Seq<char>|
                suffix_owner(m, o, name) && forall|o2: Seq<char>| #[trigger] suffix_owner(m, o2, name) ==> o2
                    == o,
        )
    } else {
        None
    }
}

/// The field of the record type `name` refers to.
pub open spec fn resolved_record_field(m: SlotsModel, name: Seq<char>, field: Seq<char>) -> Option<FieldInfoModel> {
    match resolve_record_type(m, name) {
        Some(owner) => if m.records.dom().contains((owner, field)) {
            Some(m.records[(owner, field)])
        } else {
            None
        },
        None => None,
    }
}

pub open spec fn enum_field(m: SlotsModel, owner: Seq<char>, variant: Seq<char>, field: Seq<char>) -> Option<
    FieldInfoModel,
> {
    if m.enums.dom().contains((owner, variant, field)) {
        Some(m.enums[(owner, variant, field)])
    } else {
        None
    }
}

proof fn lemma_ambiguous_suffix(m: SlotsModel, o1: Seq<char>, o2: Seq<char>, name: Seq<char>)
    requires
        suffix_owner(m, o1, name),
        suffix_owner(m, o2, name),
        o1 != o2,
        !record_owners(m).contains(name),
    ensures
        resolve_record_type(m, name) is None,
{
    if exists|o: Seq<char>|
        suffix_owner(m, o, name) && forall|o3: Seq<char>| #[trigger] suffix_owner(m, o3, name) ==> o3 == o {
        let o = choose|o: Seq<char>|
            suffix_owner(m, o, name) && forall|o3: Seq<char>| #[trigger] suffix_owner(m, o3, name) ==> o3 == o;
        assert(suffix_owner(m, o1, name));
        assert(suffix_owner(m, o2, name));
        assert(o1 == o && o2 == o);
    }
}

proof fn lemma_unique_suffix(m: SlotsModel, o: Seq<char>, name: Seq<char>)
    requires
        suffix_owner(m, o, name),
        forall|o2: Seq<char>| #[trigger] suffix_owner(m, o2, name) ==> o2 == o,
        !record_owners(m).contains(name),
    ensures
        resolve_record_type(m, name) == Some(o),
{
    let c = choose|c: Seq<char>|
        suffix_owner(m, c, name) && forall|o3: Seq<char>| #[trigger] suffix_owner(m, o3, name) ==> o3 == c;
    assert(c == o);
}

spec fn records_distinct(s: Seq<RecordFieldEntry>) -> bool {
    forall|i: int, j: int| 0 <= i < j < s.len() ==> record_key(#[trigger] s[i]) != record_key(#[trigger] s[j])
}

spec fn enums_distinct(s: Seq<EnumFieldEntry>) -> bool {
    forall|i: int, j: int| 0 <= i < j < s.len() ==> enum_key(#[trigger] s[i]) != enum_key(#[trigger] s[j])
}

proof fn lemma_records_set(
    before: Seq<RecordFieldEntry>,
    f: int,
    key: (Seq<char>, Seq<char>),
    info: FieldInfoModel,
    after: Seq<RecordFieldEntry>,
)
    requires
        records_distinct(before),
        0 <= f < before.len(),
        record_key(before[f]) == key,
        after == before.update(f, after[f]),
        record_key(after[f]) == key,
        after[f].info@ == info,
    ensures
        records_distinct(after),
        records_model(after) == records_model(before).insert(key, info),
{
    assert forall|i: int, j: int| 0 <= i < j < after.len() implies record_key(#[trigger] after[i]) != record_key(#[trigger] after[j]) by {
        assert(record_key(after[i]) == record_key(before[i]));
        assert(record_key(after[j]) == record_key(before[j]));
    }
    let m = records_model(after);
    let n = records_model(before).insert(key, info);
    assert forall|k: (Seq<char>, Seq<char>)| #[trigger] m.dom().contains(k) == n.dom().contains(k) by {
        if m.dom().contains(k) {
            let j = choose|j: int| 0 <= j < after.len() && record_key(#[trigger] after[j]) == k;
            assert(record_key(before[j]) == k);
        }
        if records_model(before).dom().contains(k) {
            let j = choose|j: int| 0 <= j < before.len() && record_key(#[trigger] before[j]) == k;
            assert(record_key(after[j]) == k);
        }
        if k == key {
            assert(record_key(after[f]) == k);
        }
    }
    assert forall|k: (Seq<char>, Seq<char>)| m.dom().contains(k) implies #[trigger] m[k] == n[k] by {
        let j = choose|j: int| 0 <= j < after.len() && record_key(#[trigger] after[j]) == k;
        if k == key {
            if j != f {
                assert(record_key(after[j]) == record_key(after[f]));
            }
        } else {
            assert(j != f);
            assert(after[j] == before[j]);
            let j2 = choose|j2: int| 0 <= j2 < before.len() && record_key(#[trigger] before[j2]) == k;
            if j2 != j {
                assert(record_key(before[j2]) == record_key(before[j]));
            }
        }
    }
    assert(m =~= n);
}

proof fn lemma_records_push(
    before: Seq<RecordFieldEntry>,
    key: (Seq<char>, Seq<char>),
    info: FieldInfoModel,
    after: Seq<RecordFieldEntry>,
)
    requires
        records_distinct(before),
        forall|k: int| 0 <= k < before.len() ==> record_key(#[trigger] before[k]) != key,
        after.len() == before.len() + 1,
        after.subrange(0, before.len() as int) == before,
        record_key(after[before.len() as int]) == key,
        after[before.len() as int].info@ == info,
    ensures
        records_distinct(after),
        records_model(after) == records_model(before).insert(key, info),
{
    let last = before.len() as int;
    assert forall|k: int| 0 <= k < before.len() implies #[trigger] after[k] == before[k] by {
        assert(after.subrange(0, last)[k] == after[k]);
    }
    assert forall|i: int, j: int| 0 <= i < j < after.len() implies record_key(#[trigger] after[i]) != record_key(#[trigger] after[j]) by {
        assert(after[i] == before[i]);
        if j < last {
            assert(after[j] == before[j]);
        }
    }
    let m = records_model(after);
    let n = records_model(before).insert(key, info);
    assert forall|k: (Seq<char>, Seq<char>)| #[trigger] m.dom().contains(k) == n.dom().contains(k) by {
        if m.dom().contains(k) {
            let j = choose|j: int| 0 <= j < after.len() && record_key(#[trigger] after[j]) == k;
            if j < last {
                assert(after[j] == before[j]);
            }
        }
        if records_model(before).dom().contains(k) {
            let j = choose|j: int| 0 <= j < before.len() && record_key(#[trigger] before[j]) == k;
            assert(after[j] == before[j]);
        }
        if k == key {
            assert(record_key(after[last]) == k);
        }
    }
    assert forall|k: (Seq<char>, Seq<char>)| m.dom().contains(k) implies #[trigger] m[k] == n[k] by {
        let j = choose|j: int| 0 <= j < after.len() && record_key(#[trigger] after[j]) == k;
        if k == key {
            if j != last {
                assert(after[j] == before[j]);
            }
        } else {
            assert(j != last);
            assert(after[j] == before[j]);
            let j2 = choose|j2: int| 0 <= j2 < before.len() && record_key(#[trigger] before[j2]) == k;
            if j2 != j {
                assert(record_key(before[j2]) == record_key(before[j]));
            }
        }
    }
    assert(m =~= n);
}

proof fn lemma_enums_set(
    before: Seq<EnumFieldEntry>,
    f: int,
    key: (Seq<char>, Seq<char>, Seq<char>),
    info: FieldInfoModel,
    after: Seq<EnumFieldEntry>,
)
    requires
        enums_distinct(before),
        0 <= f < before.len(),
        enum_key(before[f]) == key,
        after == before.update(f, after[f]),
        enum_key(after[f]) == key,
        after[f].info@ == info,
    ensures
        enums_distinct(after),
        enums_model(after) == enums_model(before).insert(key, info),
{
    assert forall|i: int, j: int| 0 <= i < j < after.len() implies enum_key(#[trigger] after[i]) != enum_key(#[trigger] after[j]) by {
        assert(enum_key(after[i]) == enum_key(before[i]));
        assert(enum_key(after[j]) == enum_key(before[j]));
    }
    let m = enums_model(after);
    let n = enums_model(before).insert(key, info);
    assert forall|k: (Seq<char>, Seq<char>, Seq<char>)| #[trigger] m.dom().contains(k) == n.dom().contains(k) by {
        if m.dom().contains(k) {
            let j = choose|j: int| 0 <= j < after.len() && enum_key(#[trigger] after[j]) == k;
            assert(enum_key(before[j]) == k);
        }
        if enums_model(before).dom().contains(k) {
            let j = choose|j: int| 0 <= j < before.len() && enum_key(#[trigger] before[j]) == k;
            assert(enum_key(after[j]) == k);
        }
        if k == key {
            assert(enum_key(after[f]) == k);
        }
    }
    assert forall|k: (Seq<char>, Seq<char>, Seq<char>)| m.dom().contains(k) implies #[trigger] m[k] == n[k] by {
        let j = choose|j: int| 0 <= j < after.len() && enum_key(#[trigger] after[j]) == k;
        if k == key {
            if j != f {
                assert(enum_key(after[j]) == enum_key(after[f]));
            }
        } else {
            assert(j != f);
            assert(after[j] == before[j]);
            let j2 = choose|j2: int| 0 <= j2 < before.len() && enum_key(#[trigger] before[j2]) == k;
            if j2 != j {
                assert(enum_key(before[j2]) == enum_key(before[j]));
            }
        }
    }
    assert(m =~= n);
}

proof fn lemma_enums_push(
    before: Seq<EnumFieldEntry>,
    key: (Seq<char>, Seq<char>, Seq<char>),
    info: FieldInfoModel,
    after: Seq<EnumFieldEntry>,
)
    requires
        enums_distinct(before),
        forall|k: int| 0 <= k < before.len() ==> enum_key(#[trigger] before[k]) != key,
        after.len() == before.len() + 1,
        after.subrange(0, before.len() as int) == before,
        enum_key(after[before.len() as int]) == key,
        after[before.len() as int].info@ == info,
    ensures
        enums_distinct(after),
        enums_model(after) == enums_model(before).insert(key, info),
{
    let last = before.len() as int;
    assert forall|k: int| 0 <= k < before.len() implies #[trigger] after[k] == before[k] by {
        assert(after.subrange(0, last)[k] == after[k]);
    }
    assert forall|i: int, j: int| 0 <= i < j < after.len() implies enum_key(#[trigger] after[i]) != enum_key(#[trigger] after[j]) by {
        assert(after[i] == before[i]);
        if j < last {
            assert(after[j] == before[j]);
        }
    }
    let m = enums_model(after);
    let n = enums_model(before).insert(key, info);
    assert forall|k: (Seq<char>, Seq<char>, Seq<char>)| #[trigger] m.dom().contains(k) == n.dom().contains(k) by {
        if m.dom().contains(k) {
            let j = choose|j: int| 0 <= j < after.len() && enum_key(#[trigger] after[j]) == k;
            if j < last {
                assert(after[j] == before[j]);
            }
        }
        if enums_model(before).dom().contains(k) {
            let j = choose|j: int| 0 <= j < before.len() && enum_key(#[trigger] before[j]) == k;
            assert(after[j] == before[j]);
        }
        if k == key {
            assert(enum_key(after[last]) == k);
        }
    }
    assert forall|k: (Seq<char>, Seq<char>, Seq<char>)| m.dom().contains(k) implies #[trigger] m[k] == n[k] by {
        let j = choose|j: int| 0 <= j < after.len() && enum_key(#[trigger] after[j]) == k;
        if k == key {
            if j != last {
                assert(after[j] == before[j]);
            }
        } else {
            assert(j != last);
            assert(after[j] == before[j]);
            let j2 = choose|j2: int| 0 <= j2 < before.len() && enum_key(#[trigger] before[j2]) == k;
            if j2 != j {
                assert(enum_key(before[j2]) == enum_key(before[j]));
            }
        }
    }
    assert(m =~= n);
}

/// Whether `owner` ends with `::` followed by `name`.
fn ends_with_segment(owner: &str, name: &str) -> (r: bool)
    ensures
        r == ends_with(owner@, "::"@ + name@),
{
    proof {
        reveal_strlit("::");
    }
    let n = owner.unicode_len();
    let m = name.unicode_len();
    if n < m || n - m < 2 {
        return false;
    }
    let a = owner.get_char(n - m - 2);
    let b = owner.get_char(n - m - 1);
    let tail = owner.substring_char(n - m, n);
    let r = a == ':' && b == ':' && str_eq(tail, name);
    proof {
        let suffix = "::"@ + name@;
        let t = owner@.subrange(n - m - 2, n as int);
        if r {
            assert(t =~= suffix);
        }
        if ends_with(owner@, suffix) {
            assert(t == suffix);
            assert(t[0] == ':' && t[1] == ':');
            assert(tail@ =~= t.subrange(2, t.len() as int));
            assert(suffix.subrange(2, suffix.len() as int) =~= name@);
        }
    }
    r
}

impl ScriptFieldSlots {
    #[verifier::type_invariant]
    spec fn wf(self) -> bool {
        &&& forall|i: int, j: int|
            0 <= i < j < self.records@.len() ==> record_key(#[trigger] self.records@[i]) != record_key(
                #[trigger] self.records@[j],
            )
        &&& forall|i: int, j: int|
            0 <= i < j < self.enums@.len() ==> enum_key(#[trigger] self.enums@[i]) != enum_key(
                #[trigger] self.enums@[j],
            )
    }

    /// No fields at all.
    pub fn new() -> (r: Self)
        ensures
            r@.records == Map::<(Seq<char>, Seq<char>), FieldInfoModel>::empty(),
            r@.enums == Map::<(Seq<char>, Seq<char>, Seq<char>), FieldInfoModel>::empty(),
    {
        let r = ScriptFieldSlots { records: Vec::new(), enums: Vec::new() };
        proof {
            assert(r@.records =~= Map::empty());
            assert(r@.enums =~= Map::empty());
        }
        r
    }

    fn record_position(&self, owner: &str, field: &str) -> (r: Option<usize>)
        ensures
            match r {
                Some(i) => i < self.records@.len() && record_key(self.records@[i as int]) == (owner@, field@)
                    && self@.records.dom().contains((owner@, field@)) && self@.records[(owner@, field@)]
                    == self.records@[i as int].info@,
                None => !self@.records.dom().contains((owner@, field@)),
            },
    {
        proof {
            use_type_invariant(self);
        }
        let mut i: usize = 0;
        while i < self.records.len()
            invariant
                self.wf(),
                i <= self.records.len(),
                forall|k: int| 0 <= k < i ==> record_key(#[trigger] self.records@[k]) != (owner@, field@),
            decreases self.records.len() - i,
        {
            if str_eq(self.records[i].owner.as_str(), owner) && str_eq(self.records[i].field.as_str(), field) {
                proof {
                    let key = (owner@, field@);
                    assert(record_key(self.records@[i as int]) == key);
                    let j = choose|j: int| 0 <= j < self.records@.len() && record_key(#[trigger] self.records@[j]) == key;
                    if j < i {
                        assert(record_key(self.records@[j]) != record_key(self.records@[i as int]));
                    } else if j > i {
                        assert(record_key(self.records@[i as int]) != record_key(self.records@[j]));
                    }
                }
                return Some(i);
            }
            i = i + 1;
        }
        None
    }

    fn enum_position(&self, owner: &str, variant: &str, field: &str) -> (r: Option<usize>)
        ensures
            match r {
                Some(i) => i < self.enums@.len() && self@.enums.dom().contains((owner@, variant@, field@))
                    && self@.enums[(owner@, variant@, field@)] == self.enums@[i as int].info@,
                None => !self@.enums.dom().contains((owner@, variant@, field@)),
            },
    {
        proof {
            use_type_invariant(self);
        }
        let mut i: usize = 0;
        while i < self.enums.len()
            invariant
                self.wf(),
                i <= self.enums.len(),
                forall|k: int| 0 <= k < i ==> enum_key(#[trigger] self.enums@[k]) != (owner@, variant@, field@),
            decreases self.enums.len() - i,
        {
            if str_eq(self.enums[i].owner.as_str(), owner) && str_eq(self.enums[i].variant.as_str(), variant)
                && str_eq(self.enums[i].field.as_str(), field) {
                proof {
                    let key = (owner@, variant@, field@);
                    assert(enum_key(self.enums@[i as int]) == key);
                    let j = choose|j: int| 0 <= j < self.enums@.len() && enum_key(#[trigger] self.enums@[j]) == key;
                    if j < i {
                        assert(enum_key(self.enums@[j]) != enum_key(self.enums@[i as int]));
                    } else if j > i {
                        assert(enum_key(self.enums@[i as int]) != enum_key(self.enums@[j]));
                    }
                }
                return Some(i);
            }
            i = i + 1;
        }
        None
    }

    /// Whether some record type of exactly this name has fields.
    fn has_record_owner(&self, owner: &str) -> (r: bool)
        ensures
            r == record_owners(self@).contains(owner@),
    {
        let mut i: usize = 0;
        while i < self.records.len()
            invariant
                i <= self.records.len(),
                forall|k: int| 0 <= k < i ==> (#[trigger] self.records@[k]).owner@ != owner@,
            decreases self.records.len() - i,
        {
            if str_eq(self.records[i].owner.as_str(), owner) {
                proof {
                    let f = self.records@[i as int].field@;
                    assert(self@.records.dom().contains((owner@, f))) by {
                        assert(record_key(self.records@[i as int]) == (owner@, f));
                    }
                }
                return true;
            }
            i = i + 1;
        }
        proof {
            if record_owners(self@).contains(owner@) {
                let f = choose|f: Seq<char>| #[trigger] self@.records.dom().contains((owner@, f));
                let k = choose|k: int| 0 <= k < self.records@.len() && record_key(#[trigger] self.records@[k]) == (owner@, f);
                assert(self.records@[k].owner@ == owner@);
            }
        }
        false
    }

    proof fn lemma_entry_owner(&self, k: int)
        requires
            0 <= k < self.records@.len(),
        ensures
            record_owners(self@).contains(self.records@[k].owner@),
    {
        let o = self.records@[k].owner@;
        let f = self.records@[k].field@;
        assert(record_key(self.records@[k]) == (o, f));
        assert(self@.records.dom().contains((o, f)));
    }

    proof fn lemma_owner_entry(&self, o: Seq<char>) -> (k: int)
        requires
            record_owners(self@).contains(o),
        ensures
            0 <= k < self.records@.len(),
            self.records@[k].owner@ == o,
    {
        let g = choose|g: Seq<char>| #[trigger] self@.records.dom().contains((o, g));
        let k = choose|k: int| 0 <= k < self.records@.len() && record_key(#[trigger] self.records@[k]) == (o, g);
        k
    }

    /// The script types the record fields are known to hold, entry by entry
    /// (the owner where an entry has none).
    pub closed spec fn fact_paths(&self) -> Seq<Seq<char>> {
        Seq::new(
            self.records@.len(),
            |i: int| match self.records@[i].info.fact {
                Some(f) => f.type_path@,
                None => self.records@[i].owner@,
            },
        )
    }

    /// Every script type a record field holds is among `fact_paths`.
    pub proof fn lemma_fact_path_listed(&self, owner: Seq<char>, field: Seq<char>)
        requires
            self@.records.dom().contains((owner, field)),
            self@.records[(owner, field)].fact is Some,
        ensures
            self.fact_paths().contains(self@.records[(owner, field)].fact->0.type_path),
    {
        let k = choose|k: int| 0 <= k < self.records@.len() && record_key(#[trigger] self.records@[k]) == (owner, field);
        assert(self.fact_paths()[k] == self@.records[(owner, field)].fact->0.type_path);
    }

    /// The record type `name` refers to: the type of that name when it has
    /// fields, or else the only one whose path ends with `::name`.
    pub fn resolve_record_type_name(&self, name: &str) -> (r: Option<String>)
        ensures
            match r {
                Some(o) => resolve_record_type(self@, name@) == Some(o@),
                None => resolve_record_type(self@, name@) is None,
            },
    {
        if self.has_record_owner(name) {
            return Some(name.to_owned());
        }
        let ghost suffix = "::"@ + name@;
        let mut found: Option<usize> = None;
        let mut i: usize = 0;
        while i < self.records.len()
            invariant
                suffix == "::"@ + name@,
                !record_owners(self@).contains(name@),
                i <= self.records.len(),
                match found {
                    Some(f) => f < i && ends_with(self.records@[f as int].owner@, suffix) && forall|k: int|
                        0 <= k < i && ends_with((#[trigger] self.records@[k]).owner@, suffix)
                            ==> self.records@[k].owner@ == self.records@[f as int].owner@,
                    None => forall|k: int| 0 <= k < i ==> !ends_with((#[trigger] self.records@[k]).owner@, suffix),
                },
            decreases self.records.len() - i,
        {
            if ends_with_segment(self.records[i].owner.as_str(), name) {
                match found {
                    Some(f) => {
                        if !str_eq(self.records[f].owner.as_str(), self.records[i].owner.as_str()) {
                            proof {
                                self.lemma_entry_owner(f as int);
                                self.lemma_entry_owner(i as int);
                                lemma_ambiguous_suffix(
                                    self@,
                                    self.records@[f as int].owner@,
                                    self.records@[i as int].owner@,
                                    name@,
                                );
                            }
                            return None;
                        }
                    },
                    None => {
                        found = Some(i);
                    },
                }
            }
            i = i + 1;
        }
        match found {
            Some(f) => {
                proof {
                    let o = self.records@[f as int].owner@;
                    self.lemma_entry_owner(f as int);
                    assert forall|o2: Seq<char>| #[trigger] suffix_owner(self@, o2, name@) implies o2 == o by {
                        let k = self.lemma_owner_entry(o2);
                        assert(ends_with(self.records@[k].owner@, suffix));
                    }
                    lemma_unique_suffix(self@, o, name@);
                }
                Some(self.records[f].owner.clone())
            },
            None => {
                proof {
                    assert forall|o: Seq<char>| !suffix_owner(self@, o, name@) by {
                        if suffix_owner(self@, o, name@) {
                            let k = self.lemma_owner_entry(o);
                            assert(ends_with(self.records@[k].owner@, suffix));
                        }
                    }
                }
                None
            },
        }
    }

    /// The slot of a field of the record type `name` refers to.
    pub fn record(&self, name: &str, field: &str) -> (r: Option<usize>)
        ensures
            match r {
                Some(slot) => resolved_record_field(self@, name@, field@) matches Some(info) && info.slot == slot,
                None => resolved_record_field(self@, name@, field@) is None,
            },
    {
        let owner = match self.resolve_record_type_name(name) {
            Some(o) => o,
            None => return None,
        };
        match self.record_position(owner.as_str(), field) {
            Some(i) => Some(self.records[i].info.slot),
            None => None,
        }
    }

    /// The runtime type of a field of the record type `name` refers to.
    pub fn record_field_value_type(&self, name: &str, field: &str) -> (r: Option<RuntimeTypeFact>)
        ensures
            opt_fact_model(r) == match resolved_record_field(self@, name@, field@) {
                Some(info) => info.value_type,
                None => None,
            },
    {
        let owner = match self.resolve_record_type_name(name) {
            Some(o) => o,
            None => return None,
        };
        match self.record_position(owner.as_str(), field) {
            Some(i) => match &self.records[i].info.value_type {
                Some(t) => Some(t.duplicate()),
                None => None,
            },
            None => None,
        }
    }

    /// The script type of a field of the record type `name` refers to.
    pub fn record_field_fact(&self, name: &str, field: &str) -> (r: Option<ScriptTypeFact>)
        ensures
            opt_fact_view(r) == match resolved_record_field(self@, name@, field@) {
                Some(info) => info.fact,
                None => None,
            },
    {
        let owner = match self.resolve_record_type_name(name) {
            Some(o) => o,
            None => return None,
        };
        match self.record_position(owner.as_str(), field) {
            Some(i) => match &self.records[i].info.fact {
                Some(f) => Some(f.duplicate()),
                None => None,
            },
            None => None,
        }
    }

    /// The slot of a field of an enum variant.
    pub fn enum_variant(&self, owner: &str, variant: &str, field: &str) -> (r: Option<usize>)
        ensures
            match r {
                Some(slot) => enum_field(self@, owner@, variant@, field@) matches Some(info) && info.slot == slot,
                None => enum_field(self@, owner@, variant@, field@) is None,
            },
    {
        match self.enum_position(owner, variant, field) {
            Some(i) => Some(self.enums[i].info.slot),
            None => None,
        }
    }

    /// The script type of a field of an enum variant.
    pub fn enum_variant_field_fact(&self, owner: &str, variant: &str, field: &str) -> (r: Option<ScriptTypeFact>)
        ensures
            opt_fact_view(r) == match enum_field(self@, owner@, variant@, field@) {
                Some(info) => info.fact,
                None => None,
            },
    {
        match self.enum_position(owner, variant, field) {
            Some(i) => match &self.enums[i].info.fact {
                Some(f) => Some(f.duplicate()),
                None => None,
            },
            None => None,
        }
    }

    /// The runtime type of a field of an enum variant.
    pub fn enum_variant_field_value_type(&self, owner: &str, variant: &str, field: &str) -> (r: Option<
        RuntimeTypeFact,
    >)
        ensures
            opt_fact_model(r) == match enum_field(self@, owner@, variant@, field@) {
                Some(info) => info.value_type,
                None => None,
            },
    {
        match self.enum_position(owner, variant, field) {
            Some(i) => match &self.enums[i].info.value_type {
                Some(t) => Some(t.duplicate()),
                None => None,
            },
            None => None,
        }
    }

    /// The fields of the record type `name` refers to, sorted by name, each
    /// with its script type and runtime type when known.
    pub fn record_fields(&self, name: &str) -> (r: Vec<(String, Option<ScriptTypeFact>, Option<RuntimeTypeFact>)>)
        ensures
            match resolve_record_type(self@, name@) {
                None => r@.len() == 0,
                Some(owner) => {
                    &&& forall|i: int|
                        0 <= i < r@.len() ==> self@.records.dom().contains((owner, (#[trigger] r@[i]).0@))
                            && opt_fact_view(r@[i].1) == self@.records[(owner, r@[i].0@)].fact
                            && opt_fact_model(r@[i].2) == self@.records[(owner, r@[i].0@)].value_type
                    &&& forall|f: Seq<char>|
                        #[trigger] self@.records.dom().contains((owner, f)) ==> exists|i: int|
                            0 <= i < r@.len() && (#[trigger] r@[i]).0@ == f
                    &&& forall|i: int, j: int| 0 <= i < j < r@.len() ==> name_lt((#[trigger] r@[i]).0@, (#[trigger] r@[j]).0@)
                },
            },
    {
        proof {
            use_type_invariant(self);
        }
        let owner = match self.resolve_record_type_name(name) {
            Some(o) => o,
            None => return Vec::new(),
        };
        let mut names: Vec<String> = Vec::new();
        let mut i: usize = 0;
        while i < self.records.len()
            invariant
                self.wf(),
                i <= self.records.len(),
                string_views(names@).no_duplicates(),
                forall|t: int| 0 <= t < names@.len() ==> self@.records.dom().contains((owner@, (#[trigger] names@[t])@)),
                forall|k: int| 0 <= k < i && (#[trigger] self.records@[k]).owner@ == owner@ ==> string_views(names@).contains(
                    self.records@[k].field@,
                ),
                forall|t: int| 0 <= t < names@.len() ==> exists|k: int| 0 <= k < i && record_key(#[trigger] self.records@[k]) == (owner@, (#[trigger] names@[t])@),
            decreases self.records.len() - i,
        {
            if str_eq(self.records[i].owner.as_str(), owner.as_str()) {
                let ghost before = names@;
                proof {
                    let f = self.records@[i as int].field@;
                    assert(record_key(self.records@[i as int]) == (owner@, f));
                    assert forall|t: int| 0 <= t < before.len() implies (#[trigger] before[t])@ != f by {
                        let k = choose|k: int| 0 <= k < i && record_key(#[trigger] self.records@[k]) == (owner@, before[t]@);
                        if before[t]@ == f {
                            assert(record_key(self.records@[k]) != record_key(self.records@[i as int]));
                        }
                    }
                }
                names.push(self.records[i].field.clone());
                proof {
                    let f = self.records@[i as int].field@;
                    assert(string_views(names@) =~= string_views(before).push(f));
                    assert forall|t: int| 0 <= t < names@.len() implies exists|k: int| 0 <= k < i + 1 && record_key(#[trigger] self.records@[k]) == (owner@, (#[trigger] names@[t])@) by {
                        if t == before.len() {
                            assert(record_key(self.records@[i as int]) == (owner@, names@[t]@));
                        } else {
                            assert(names@[t] == before[t]);
                            let k = choose|k: int| 0 <= k < i && record_key(#[trigger] self.records@[k]) == (owner@, before[t]@);
                        }
                    }
                    assert forall|k: int| 0 <= k < i + 1 && (#[trigger] self.records@[k]).owner@ == owner@ implies string_views(names@).contains(
                        self.records@[k].field@,
                    ) by {
                        if k == i {
                            assert(string_views(names@)[before.len() as int] == f);
                        } else {
                            let t = choose|t: int| 0 <= t < string_views(before).len() && string_views(before)[t] == self.records@[k].field@;
                            assert(string_views(names@)[t] == string_views(before)[t]);
                        }
                    }
                    assert forall|a: int, b: int| 0 <= a < string_views(names@).len() && 0 <= b < string_views(names@).len() && a != b implies string_views(names@)[a] != string_views(names@)[b] by {
                        if a < before.len() && b < before.len() {
                            assert(string_views(names@)[a] == string_views(before)[a]);
                            assert(string_views(names@)[b] == string_views(before)[b]);
                        } else if a == before.len() {
                            assert(string_views(names@)[b] == before[b]@);
                        } else {
                            assert(string_views(names@)[a] == before[a]@);
                        }
                    }
                }
            }
            i = i + 1;
        }
        let ghost name_views = string_views(names@);
        let sorted = sorted_slots(names);
        proof {
            name_views.lemma_multiset_has_no_duplicates();
            slot_names(sorted@).lemma_multiset_has_no_duplicates_conv();
        }
        let mut out: Vec<(String, Option<ScriptTypeFact>, Option<RuntimeTypeFact>)> = Vec::new();
        let mut k: usize = 0;
        while k < sorted.len()
            invariant
                k <= sorted.len(),
                out@.len() == k,
                slot_names(sorted@).to_multiset() == name_views.to_multiset(),
                forall|t: int| 0 <= t < name_views.len() ==> self@.records.dom().contains((owner@, #[trigger] name_views[t])),
                forall|t: int| 0 <= t < k ==> (#[trigger] out@[t]).0@ == sorted@[t].0@
                    && self@.records.dom().contains((owner@, out@[t].0@))
                    && opt_fact_view(out@[t].1) == self@.records[(owner@, out@[t].0@)].fact
                    && opt_fact_model(out@[t].2) == self@.records[(owner@, out@[t].0@)].value_type,
            decreases sorted.len() - k,
        {
            let field = &sorted[k].0;
            proof {
                let v = sorted@[k as int].0@;
                assert(slot_names(sorted@)[k as int] == v);
                vstd::seq_lib::to_multiset_contains(slot_names(sorted@), v);
                vstd::seq_lib::to_multiset_contains(name_views, v);
                assert(slot_names(sorted@).contains(v));
                assert(name_views.contains(v));
                let t = choose|t: int| 0 <= t < name_views.len() && name_views[t] == v;
                assert(self@.records.dom().contains((owner@, name_views[t])));
            }
            match self.record_position(owner.as_str(), field.as_str()) {
                Some(p) => {
                    let fact = match &self.records[p].info.fact {
                        Some(f) => Some(f.duplicate()),
                        None => None,
                    };
                    let value_type = match &self.records[p].info.value_type {
                        Some(t) => Some(t.duplicate()),
                        None => None,
                    };
                    out.push((field.clone(), fact, value_type));
                },
                None => {
                    proof {
                        assert(false);
                    }
                },
            }
            k = k + 1;
        }
        proof {
            let sn = slot_names(sorted@);
            assert forall|f: Seq<char>| #[trigger] self@.records.dom().contains((owner@, f)) implies exists|i: int|
                0 <= i < out@.len() && (#[trigger] out@[i]).0@ == f by {
                let e = choose|e: int| 0 <= e < self.records@.len() && record_key(#[trigger] self.records@[e]) == (owner@, f);
                assert(self.records@[e].owner@ == owner@);
                assert(name_views.contains(f));
                vstd::seq_lib::to_multiset_contains(name_views, f);
                vstd::seq_lib::to_multiset_contains(sn, f);
                let t = choose|t: int| 0 <= t < sn.len() && sn[t] == f;
                assert(out@[t].0@ == f);
            }
            assert forall|a: int, b: int| 0 <= a < b < out@.len() implies name_lt((#[trigger] out@[a]).0@, (#[trigger] out@[b]).0@) by {
                assert(sn[a] == out@[a].0@ && sn[b] == out@[b].0@);
                assert(!name_lt(sn[b], sn[a]));
                assert(sn[a] != sn[b]);
                crate::text::lemma_seq_lt_total(sn[a], sn[b]);
            }
        }
        out
    }

    /// Adds (or replaces) the field `field` of the record type `owner`.
    pub fn with_record_field(self, owner: String, field: String, info: FieldSlotInfo) -> (r: Self)
        ensures
            r@.records == self@.records.insert((owner@, field@), info@),
            r@.enums == self@.enums,
    {
        proof {
            use_type_invariant(&self);
        }
        let ScriptFieldSlots { mut records, enums } = self;
        let ghost key = (owner@, field@);
        let ghost before = records@;
        let mut i: usize = 0;
        let mut found: Option<usize> = None;
        while i < records.len()
            invariant
                records@ == before,
                key == (owner@, field@),
                i <= records.len(),
                found is None ==> forall|k: int| 0 <= k < i ==> record_key(#[trigger] records@[k]) != key,
                found matches Some(f) ==> f < records.len() && record_key(records@[f as int]) == key,
            decreases records.len() - i,
        {
            let same_owner = str_eq(records[i].owner.as_str(), owner.as_str());
            let same_field = str_eq(records[i].field.as_str(), field.as_str());
            proof {
                assert(record_key(records@[i as int]) == (records@[i as int].owner@, records@[i as int].field@));
            }
            if same_owner && same_field {
                if found.is_none() {
                    found = Some(i);
                }
            }
            i = i + 1;
        }
        let ghost entry_model = info@;
        let entry = RecordFieldEntry { owner, field, info };
        match found {
            Some(f) => {
                records.set(f, entry);
                proof {
                    lemma_records_set(before, f as int, key, entry_model, records@);
                }
            },
            None => {
                records.push(entry);
                proof {
                    assert(records@.subrange(0, before.len() as int) =~= before);
                    lemma_records_push(before, key, entry_model, records@);
                }
            },
        }
        ScriptFieldSlots { records, enums }
    }

    /// Adds (or replaces) the field `field` of the variant `variant` of the enum type `owner`.
    pub fn with_enum_field(self, owner: String, variant: String, field: String, info: FieldSlotInfo) -> (r: Self)
        ensures
            r@.enums == self@.enums.insert((owner@, variant@, field@), info@),
            r@.records == self@.records,
    {
        proof {
            use_type_invariant(&self);
        }
        let ScriptFieldSlots { records, mut enums } = self;
        let ghost key = (owner@, variant@, field@);
        let ghost before = enums@;
        let mut i: usize = 0;
        let mut found: Option<usize> = None;
        while i < enums.len()
            invariant
                enums@ == before,
                key == (owner@, variant@, field@),
                i <= enums.len(),
                found is None ==> forall|k: int| 0 <= k < i ==> enum_key(#[trigger] enums@[k]) != key,
                found matches Some(f) ==> f < enums.len() && enum_key(enums@[f as int]) == key,
            decreases enums.len() - i,
        {
            let same_owner = str_eq(enums[i].owner.as_str(), owner.as_str());
            let same_variant = str_eq(enums[i].variant.as_str(), variant.as_str());
            let same_field = str_eq(enums[i].field.as_str(), field.as_str());
            proof {
                assert(enum_key(enums@[i as int]) == (enums@[i as int].owner@, enums@[i as int].variant@, enums@[i as int].field@));
            }
            if same_owner && same_variant && same_field {
                if found.is_none() {
                    found = Some(i);
                }
            }
            i = i + 1;
        }
        let ghost entry_model = info@;
        let entry = EnumFieldEntry { owner, variant, field, info };
        match found {
            Some(f) => {
                enums.set(f, entry);
                proof {
                    lemma_enums_set(before, f as int, key, entry_model, enums@);
                }
            },
            None => {
                enums.push(entry);
                proof {
                    assert(enums@.subrange(0, before.len() as int) =~= before);
                    lemma_enums_push(before, key, entry_model, enums@);
                }
            },
        }
        ScriptFieldSlots { records, enums }
    }
}


/// Reading a record field back after declaring it gives what was declared,
/// by the type's own name; declaring it leaves every other field of a type
/// that already had fields as it was.
pub proof fn law_record_field_read_after_write(
    m: SlotsModel,
    owner: Seq<char>,
    field: Seq<char>,
    info: FieldInfoModel,
    other: Seq<char>,
)
    ensures
        resolved_record_field(SlotsModel { records: m.records.insert((owner, field), info), enums: m.enums }, owner, field)
            == Some(info),
        record_owners(m).contains(owner) && other != field ==> resolved_record_field(
            SlotsModel { records: m.records.insert((owner, field), info), enums: m.enums },
            owner,
            other,
        ) == resolved_record_field(m, owner, other),
{
    let m2 = SlotsModel { records: m.records.insert((owner, field), info), enums: m.enums };
    assert(m2.records.dom().contains((owner, field)));
    assert(record_owners(m2).contains(owner));
    if record_owners(m).contains(owner) {
        assert(resolve_record_type(m, owner) == Some(owner));
    }
}

} // verus!
