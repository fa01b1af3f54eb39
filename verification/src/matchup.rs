//! The type-effectiveness aggregator.
//!
//! A [`TypeMatchup`] owns one table entry per base elemental type, each at
//! multiplier 1 to begin with. Attacking types contribute their damage
//! relations one at a time: every type named in a `no_damage_from` list has
//! its multiplier forced to zero, every type in a `double_damage_from` list
//! has it doubled, and every type in a `half_damage_from` list has it
//! halved, in that fixed order within one application. Identifiers that are
//! not in the table are silently ignored.
//!
//! The report groups the table by multiplier (rounded to hundredths),
//! highest multiplier first, with the display names inside a group
//! deduplicated and sorted; it is cached and only recomputed after a
//! mutation.

use vstd::prelude::*;
use crate::error::MatchupError;
use crate::model::DamageRelations;
use crate::model::TypeRecord;
use crate::multiplier::Multiplier;
use crate::multiplier::double_exact;
use crate::multiplier::halve_exact;
use crate::multiplier::lemma_double_inverts_halve;
use crate::multiplier::lemma_halve_inverts_double;
use crate::multiplier::spec_double;
use crate::multiplier::spec_halve;
use crate::multiplier::spec_hundredths;
use crate::multiplier::spec_one;
use crate::order::lemma_name_lt_asymmetric;
use crate::order::lemma_name_lt_connected;
use crate::order::name_lt;
use crate::order::str_lt;
use crate::search::english_choice;
use crate::search::english_search;
use crate::search::languages_of;

verus! {

/// Identifiers at or above this value belong to placeholder or otherwise
/// non-standard type entries the catalog may expose beyond the canonical
/// set; only identifiers below it enter the table.
pub const BASE_TYPE_CUTOFF: i64 = 19;

/// One row of the table: a type's identifier, its display name, and its
/// current damage multiplier.
#[derive(Clone, Debug, PartialEq, Eq)]
#[verifier::ext_equal]
pub struct TypeEntry {
    /// The stable identifier of the type.
    pub id: i64,
    /// The display name of the type.
    pub name: String,
    /// The current damage multiplier of the type.
    pub mult: Multiplier,
}

/// One group of the report: every display name whose multiplier rounds to
/// the same hundredths value, sorted.
#[derive(Debug, PartialEq, Eq)]
#[verifier::ext_equal]
pub struct Group {
    /// The shared multiplier of the group, in hundredths.
    pub hundredths: u16,
    /// The display names in the group, deduplicated and sorted ascending.
    pub names: Vec<String>,
}

/// How one relation entry adjusts a multiplier.
#[derive(Clone, Copy, Debug, PartialEq, Eq, Structural)]
pub enum Adjust {
    /// Force the multiplier to zero.
    SetZero,
    /// Double the multiplier.
    Double,
    /// Halve the multiplier.
    Halve,
}

/// The effect of one adjustment on one multiplier.
pub open spec fn adjust_mult(m: Multiplier, adjust: Adjust) -> Multiplier {
    match adjust {
        Adjust::SetZero => Multiplier::Zero,
        Adjust::Double => spec_double(m),
        Adjust::Halve => spec_halve(m),
    }
}

/// The table after adjusting the multiplier of every entry with the given
/// identifier; entries with other identifiers are untouched, and an
/// identifier matching no entry leaves the table unchanged.
pub open spec fn adjust_id(s: Seq<TypeEntry>, id: i64, adjust: Adjust) -> Seq<TypeEntry> {
    s.map_values(
        |e: TypeEntry|
            if e.id == id {
                TypeEntry { id: e.id, name: e.name, mult: adjust_mult(e.mult, adjust) }
            } else {
                e
            },
    )
}

/// The table after applying one adjustment for each identifier in the list,
/// in list order.
pub open spec fn apply_ids(s: Seq<TypeEntry>, ids: Seq<i64>, adjust: Adjust) -> Seq<TypeEntry>
    decreases ids.len(),
{
    if ids.len() == 0 {
        s
    } else {
        apply_ids(adjust_id(s, ids[0], adjust), ids.drop_first(), adjust)
    }
}

/// The table after applying one attacking type's damage relations in the
/// fixed order: all `no_damage_from` entries, then all `double_damage_from`
/// entries, then all `half_damage_from` entries.
pub open spec fn spec_apply_relations(s: Seq<TypeEntry>, rel: DamageRelations) -> Seq<TypeEntry> {
    apply_ids(
        apply_ids(
            apply_ids(s, rel.no_damage_from@, Adjust::SetZero),
            rel.double_damage_from@,
            Adjust::Double,
        ),
        rel.half_damage_from@,
        Adjust::Halve,
    )
}

/// No two entries of the table share an identifier.
pub open spec fn ids_distinct(s: Seq<TypeEntry>) -> bool {
    forall|i: int, j: int| 0 <= i < j < s.len() ==> s[i].id != s[j].id
}

/// Some entry of the table has this identifier.
pub open spec fn has_entry(s: Seq<TypeEntry>, id: i64) -> bool {
    exists|k: int| 0 <= k < s.len() && s[k].id == id
}

/// The catalog names a base type with this identifier.
pub open spec fn eligible_id(c: Seq<TypeRecord>, id: i64) -> bool {
    id < BASE_TYPE_CUTOFF && exists|j: int| 0 <= j < c.len() && c[j].id == id
}

/// The display name of a catalog record: its English name, or its first
/// name when no English one exists.
pub open spec fn display_name(r: TypeRecord) -> Seq<char> {
    r.names@[english_choice(languages_of(r.names@))].name@
}

/// Position `j` holds the last catalog record with entry `e`'s identifier,
/// and `e` carries that record's display name.
pub open spec fn entry_named_upto(c: Seq<TypeRecord>, upto: int, e: TypeEntry) -> bool {
    exists|j: int|
        0 <= j < upto && (#[trigger] c[j]).id == e.id && (forall|j2: int|
            j < j2 < upto ==> c[j2].id != e.id) && e.name@ == display_name(c[j])
}

/// Some entry of the table has this multiplier (in hundredths) and name.
pub open spec fn entry_with(s: Seq<TypeEntry>, h: u16, name: Seq<char>) -> bool {
    exists|k: int|
        0 <= k < s.len() && spec_hundredths((#[trigger] s[k]).mult) == h && s[k].name@ == name
}

/// The list of names contains this name.
pub open spec fn contains_name(names: Seq<String>, n: Seq<char>) -> bool {
    exists|i: int| 0 <= i < names.len() && (#[trigger] names[i])@ == n
}

/// The report lists this name under this multiplier.
pub open spec fn reported(rep: Seq<Group>, h: u16, name: Seq<char>) -> bool {
    exists|g: int|
        0 <= g < rep.len() && (#[trigger] rep[g]).hundredths == h && contains_name(
            rep[g].names@,
            name,
        )
}

/// Two reports carry the same content: the same multipliers in the same
/// order, with the same names.
pub open spec fn groups_match(a: Seq<Group>, b: Seq<Group>) -> bool {
    &&& a.len() == b.len()
    &&& forall|g: int|
        0 <= g < a.len() ==> (#[trigger] a[g]).hundredths == (#[trigger] b[g]).hundredths
            && a[g].names@ == b[g].names@
}

/// The names of a list are strictly ascending (hence deduplicated).
pub open spec fn names_sorted(names: Seq<String>) -> bool {
    forall|i: int, j: int|
        0 <= i < j < names.len() ==> name_lt((#[trigger] names[i])@, (#[trigger] names[j])@)
}

/// The names of one group are strictly ascending (hence deduplicated).
pub open spec fn group_sorted(g: Group) -> bool {
    names_sorted(g.names@)
}

/// The groups' multiplier keys are strictly descending.
pub open spec fn keys_descending(rep: Seq<Group>) -> bool {
    forall|g1: int, g2: int|
        0 <= g1 < g2 < rep.len() ==> (#[trigger] rep[g1]).hundredths > (#[trigger] rep[g2]).hundredths
}

/// The shape of a well-formed report: groups strictly descending by
/// multiplier, no empty group, and every group's names strictly ascending.
pub open spec fn report_shaped(rep: Seq<Group>) -> bool {
    &&& keys_descending(rep)
    &&& forall|g: int| 0 <= g < rep.len() ==> (#[trigger] rep[g]).names@.len() > 0
    &&& forall|g: int| 0 <= g < rep.len() ==> group_sorted(#[trigger] rep[g])
}

/// `rep` is the report of table `s`: well shaped, and listing exactly the
/// multiplier/name pairs of the table's entries. Together with the strict
/// orders, this determines the report uniquely ([`lemma_report_unique`]).
pub open spec fn is_report(s: Seq<TypeEntry>, rep: Seq<Group>) -> bool {
    &&& report_shaped(rep)
    &&& forall|h: u16, name: Seq<char>|
        #![trigger reported(rep, h, name)]
        #![trigger entry_with(s, h, name)]
        reported(rep, h, name) <==> entry_with(s, h, name)
}

/// The type-effectiveness table together with its cached report.
#[derive(Debug)]
pub struct TypeMatchup {
    /// The table rows, one per base type, identifiers distinct.
    entries: Vec<TypeEntry>,
    /// The report computed for the current table, meaningful when `clean`.
    cache: Vec<Group>,
    /// Whether `cache` reflects the current table.
    clean: bool,
}

impl View for TypeMatchup {
    type V = Seq<TypeEntry>;

    closed spec fn view(&self) -> Seq<TypeEntry> {
        self.entries@
    }
}

impl TypeMatchup {
    /// The cached report.
    pub closed spec fn spec_report(self) -> Seq<Group> {
        self.cache@
    }

    /// Whether the cached report reflects the current table.
    pub closed spec fn spec_clean(self) -> bool {
        self.clean
    }

    /// Well-formedness: identifiers are distinct, and when the cache is
    /// marked clean it really is the table's report.
    pub closed spec fn wf(self) -> bool {
        &&& ids_distinct(self@)
        &&& self.clean ==> is_report(self@, self.cache@)
    }

    /// Builds the table from the fetched catalog of elemental types: every
    /// record with an identifier below [`BASE_TYPE_CUTOFF`] contributes one
    /// entry at multiplier 1, under its display name (English, or the first
    /// name otherwise); records at or above the cutoff are dropped. A
    /// repeated identifier keeps one entry, under the last record's name.
    /// Fails if some eligible record has no names at all.
    pub fn new(catalog: &Vec<TypeRecord>) -> (r: Result<TypeMatchup, MatchupError>)
        ensures
            match r {
                Result::Ok(t) => {
                    &&& t.wf()
                    &&& !t.spec_clean()
                    &&& forall|id: i64| #![trigger has_entry(t@, id)]
                        has_entry(t@, id) <==> eligible_id(catalog@, id)
                    &&& forall|k: int| 0 <= k < t@.len() ==> (#[trigger] t@[k]).mult == spec_one()
                    &&& forall|k: int|
                        0 <= k < t@.len() ==> entry_named_upto(
                            catalog@,
                            catalog@.len() as int,
                            #[trigger] t@[k],
                        )
                    &&& forall|j: int|
                        0 <= j < catalog@.len() && (#[trigger] catalog@[j]).id < BASE_TYPE_CUTOFF
                            ==> catalog@[j].names@.len() > 0
                },
                Result::Err(e) => {
                    &&& e == MatchupError::NoSuitableValue
                    &&& exists|j: int|
                        0 <= j < catalog@.len() && (#[trigger] catalog@[j]).id < BASE_TYPE_CUTOFF
                            && catalog@[j].names@.len() == 0
                },
            },
    {
        let mut entries: Vec<TypeEntry> = Vec::new();
        let mut c: usize = 0;
        while c < catalog.len()
            invariant
                c <= catalog@.len(),
                ids_distinct(entries@),
                forall|k: int|
                    0 <= k < entries@.len() ==> (#[trigger] entries@[k]).mult == spec_one(),
                forall|id: i64| #![trigger has_entry(entries@, id)]
                    has_entry(entries@, id) <==> (id < BASE_TYPE_CUTOFF && exists|j: int|
                        0 <= j < c && (#[trigger] catalog@[j]).id == id),
                forall|k: int|
                    0 <= k < entries@.len() ==> entry_named_upto(
                        catalog@,
                        c as int,
                        #[trigger] entries@[k],
                    ),
                forall|j: int|
                    0 <= j < c && (#[trigger] catalog@[j]).id < BASE_TYPE_CUTOFF
                        ==> catalog@[j].names@.len() > 0,
            decreases catalog@.len() - c,
        {
            let rec = &catalog[c];
            if rec.id < BASE_TYPE_CUTOFF {
                match english_search(rec.names.as_slice()) {
                    Result::Err(e) => {
                        proof {
                            assert(catalog@[c as int].names@.len() == 0);
                        }
                        return Result::Err(e);
                    },
                    Result::Ok(chosen) => {
                        let name = chosen.name.clone();
                        proof {
                            assert(name@ == display_name(catalog@[c as int]));
                        }
                        let ghost pre = entries@;
                        match find_entry(&entries, rec.id) {
                            Option::Some(k) => {
                                entries[k].name = name;
                            },
                            Option::None => {
                                entries.push(
                                    TypeEntry { id: rec.id, name, mult: Multiplier::one() },
                                );
                            },
                        }
                        proof {
                            lemma_upsert_invariants(pre, entries@, catalog@, c as int);
                        }
                    },
                }
            } else {
                proof {
                    lemma_skip_record_invariants(entries@, catalog@, c as int);
                }
            }
            c = c + 1;
        }
        Result::Ok(TypeMatchup { entries, cache: Vec::new(), clean: false })
    }

    /// Forces the multiplier of the type with this identifier to exactly
    /// zero, whatever it was before; an identifier not in the table is
    /// ignored. Invalidates the cached report.
    pub fn no_damage_from(&mut self, id: i64)
        requires
            old(self).wf(),
        ensures
            final(self).wf(),
            final(self)@ == adjust_id(old(self)@, id, Adjust::SetZero),
            final(self).spec_report() == old(self).spec_report(),
            !final(self).spec_clean(),
    {
        self.modify_entry(id, Adjust::SetZero);
    }

    /// Doubles the multiplier of the type with this identifier; an
    /// identifier not in the table is ignored. Invalidates the cached
    /// report.
    pub fn double_damage_from(&mut self, id: i64)
        requires
            old(self).wf(),
        ensures
            final(self).wf(),
            final(self)@ == adjust_id(old(self)@, id, Adjust::Double),
            final(self).spec_report() == old(self).spec_report(),
            !final(self).spec_clean(),
    {
        self.modify_entry(id, Adjust::Double);
    }

    /// Halves the multiplier of the type with this identifier; an
    /// identifier not in the table is ignored. Invalidates the cached
    /// report.
    pub fn half_damage_from(&mut self, id: i64)
        requires
            old(self).wf(),
        ensures
            final(self).wf(),
            final(self)@ == adjust_id(old(self)@, id, Adjust::Halve),
            final(self).spec_report() == old(self).spec_report(),
            !final(self).spec_clean(),
    {
        self.modify_entry(id, Adjust::Halve);
    }

    /// Applies one attacking type's damage relations in the fixed order:
    /// first every `no_damage_from` entry, then every `double_damage_from`
    /// entry, then every `half_damage_from` entry. The cache stays valid
    /// only when all three lists are empty.
    pub fn apply_relations(&mut self, relations: &DamageRelations)
        requires
            old(self).wf(),
        ensures
            final(self).wf(),
            final(self)@ == spec_apply_relations(old(self)@, *relations),
            final(self).spec_report() == old(self).spec_report(),
            final(self).spec_clean() == (old(self).spec_clean()
                && relations.no_damage_from@.len() == 0 && relations.double_damage_from@.len() == 0
                && relations.half_damage_from@.len() == 0),
    {
        let ghost s0 = self@;
        let ghost rep0 = self.spec_report();
        let ghost c0 = self.spec_clean();
        let mut i: usize = 0;
        while i < relations.no_damage_from.len()
            invariant
                self.wf(),
                i <= relations.no_damage_from@.len(),
                self@ == apply_ids(s0, relations.no_damage_from@.take(i as int), Adjust::SetZero),
                self.spec_report() == rep0,
                self.spec_clean() == (c0 && i == 0),
            decreases relations.no_damage_from@.len() - i,
        {
            proof {
                lemma_apply_ids_snoc(
                    s0,
                    relations.no_damage_from@.take(i as int),
                    relations.no_damage_from@[i as int],
                    Adjust::SetZero,
                );
                assert(relations.no_damage_from@.take(i as int).push(
                    relations.no_damage_from@[i as int],
                ) =~= relations.no_damage_from@.take(i + 1));
            }
            let id = relations.no_damage_from[i];
            self.no_damage_from(id);
            i = i + 1;
        }
        proof {
            assert(relations.no_damage_from@.take(relations.no_damage_from@.len() as int)
                =~= relations.no_damage_from@);
        }
        let ghost s1 = self@;
        let ghost c1 = self.spec_clean();
        let mut i: usize = 0;
        while i < relations.double_damage_from.len()
            invariant
                self.wf(),
                i <= relations.double_damage_from@.len(),
                self@ == apply_ids(
                    s1,
                    relations.double_damage_from@.take(i as int),
                    Adjust::Double,
                ),
                self.spec_report() == rep0,
                self.spec_clean() == (c1 && i == 0),
            decreases relations.double_damage_from@.len() - i,
        {
            proof {
                lemma_apply_ids_snoc(
                    s1,
                    relations.double_damage_from@.take(i as int),
                    relations.double_damage_from@[i as int],
                    Adjust::Double,
                );
                assert(relations.double_damage_from@.take(i as int).push(
                    relations.double_damage_from@[i as int],
                ) =~= relations.double_damage_from@.take(i + 1));
            }
            let id = relations.double_damage_from[i];
            self.double_damage_from(id);
            i = i + 1;
        }
        proof {
            assert(relations.double_damage_from@.take(relations.double_damage_from@.len() as int)
                =~= relations.double_damage_from@);
        }
        let ghost s2 = self@;
        let ghost c2 = self.spec_clean();
        let mut i: usize = 0;
        while i < relations.half_damage_from.len()
            invariant
                self.wf(),
                i <= relations.half_damage_from@.len(),
                self@ == apply_ids(s2, relations.half_damage_from@.take(i as int), Adjust::Halve),
                self.spec_report() == rep0,
                self.spec_clean() == (c2 && i == 0),
            decreases relations.half_damage_from@.len() - i,
        {
            proof {
                lemma_apply_ids_snoc(
                    s2,
                    relations.half_damage_from@.take(i as int),
                    relations.half_damage_from@[i as int],
                    Adjust::Halve,
                );
                assert(relations.half_damage_from@.take(i as int).push(
                    relations.half_damage_from@[i as int],
                ) =~= relations.half_damage_from@.take(i + 1));
            }
            let id = relations.half_damage_from[i];
            self.half_damage_from(id);
            i = i + 1;
        }
        proof {
            assert(relations.half_damage_from@.take(relations.half_damage_from@.len() as int)
                =~= relations.half_damage_from@);
        }
    }

    /// The current report: the table grouped by multiplier (in hundredths),
    /// highest multiplier first, each group's display names deduplicated and
    /// sorted ascending. Returns the cached report unchanged when the table
    /// has not been mutated since it was built; only a mutated table causes
    /// a recomputation.
    pub fn get(&mut self) -> (r: Vec<Group>)
        requires
            old(self).wf(),
        ensures
            final(self).wf(),
            final(self)@ == old(self)@,
            final(self).spec_clean(),
            groups_match(r@, final(self).spec_report()),
            is_report(old(self)@, r@),
            old(self).spec_clean() ==> *final(self) == *old(self),
    {
        if !self.clean {
            let rep = build_report(&self.entries);
            self.cache = rep;
            self.clean = true;
        }
        let r = copy_groups(&self.cache);
        proof {
            lemma_groups_match_report(self@, self.cache@, r@);
        }
        r
    }

    /// The current multiplier of the type with this identifier, or nothing
    /// when the identifier is not in the table.
    pub fn multiplier_of(&self, id: i64) -> (r: Option<Multiplier>)
        ensures
            match r {
                Option::Some(m) => exists|k: int|
                    0 <= k < self@.len() && (#[trigger] self@[k]).id == id && self@[k].mult == m,
                Option::None => !has_entry(self@, id),
            },
    {
        match find_entry(&self.entries, id) {
            Option::Some(k) => {
                proof {
                    assert((self@[k as int]).id == id && self@[k as int].mult
                        == self.entries@[k as int].mult);
                }
                Option::Some(self.entries[k].mult)
            },
            Option::None => Option::None,
        }
    }

    /// Adjusts the multiplier of every entry with the given identifier;
    /// other entries, and the rest of the state except the cache flag, are
    /// untouched.
    fn modify_entry(&mut self, id: i64, adjust: Adjust)
        requires
            old(self).wf(),
        ensures
            final(self).wf(),
            final(self)@ == adjust_id(old(self)@, id, adjust),
            final(self).spec_report() == old(self).spec_report(),
            !final(self).spec_clean(),
    {
        self.clean = false;
        let ghost orig = self.entries@;
        let ghost orig_cache = self.cache@;
        let mut k: usize = 0;
        while k < self.entries.len()
            invariant
                k <= orig.len(),
                self.entries@.len() == orig.len(),
                self.cache@ == orig_cache,
                self.clean == false,
                forall|j: int|
                    0 <= j < k ==> self.entries@[j] == adjust_id(orig, id, adjust)[j],
                forall|j: int| k <= j < orig.len() ==> self.entries@[j] == orig[j],
            decreases orig.len() - k,
        {
            if self.entries[k].id == id {
                let m = self.entries[k].mult;
                let m2 = match adjust {
                    Adjust::SetZero => Multiplier::Zero,
                    Adjust::Double => m.doubled(),
                    Adjust::Halve => m.halved(),
                };
                self.entries[k].mult = m2;
            }
            k = k + 1;
        }
        proof {
            assert(self.entries@ =~= adjust_id(orig, id, adjust));
            assert forall|i: int, j: int|
                0 <= i < j < self@.len() implies self@[i].id != self@[j].id by {
                assert(self@[i].id == orig[i].id);
                assert(self@[j].id == orig[j].id);
            }
        }
    }
}

/// Finds the entry with the given identifier, if any.
fn find_entry(entries: &Vec<TypeEntry>, id: i64) -> (r: Option<usize>)
    ensures
        match r {
            Option::Some(k) => k < entries@.len() && entries@[k as int].id == id,
            Option::None => forall|j: int| 0 <= j < entries@.len() ==> entries@[j].id != id,
        },
{
    let mut k: usize = 0;
    while k < entries.len()
        invariant
            k <= entries@.len(),
            forall|j: int| 0 <= j < k ==> entries@[j].id != id,
        decreases entries@.len() - k,
    {
        if entries[k].id == id {
            return Option::Some(k);
        }
        k = k + 1;
    }
    Option::None
}

/// Applying one more identifier to a fold of adjustments is one more
/// adjustment of the fold.
proof fn lemma_apply_ids_snoc(s: Seq<TypeEntry>, ids: Seq<i64>, x: i64, adjust: Adjust)
    ensures
        apply_ids(s, ids.push(x), adjust) == adjust_id(apply_ids(s, ids, adjust), x, adjust),
    decreases ids.len(),
{
    if ids.len() == 0 {
        assert(ids.push(x)[0] == x);
        assert(ids.push(x).drop_first() =~= Seq::<i64>::empty());
        assert(apply_ids(adjust_id(s, x, adjust), ids.push(x).drop_first(), adjust) == adjust_id(
            s,
            x,
            adjust,
        ));
    } else {
        assert(ids.push(x)[0] == ids[0]);
        assert(ids.push(x).drop_first() =~= ids.drop_first().push(x));
        lemma_apply_ids_snoc(adjust_id(s, ids[0], adjust), ids.drop_first(), x, adjust);
    }
}

/// Skipping a catalog record at or above the cutoff leaves the construction
/// invariants of `new` holding one record further: the skipped record's
/// identifier cannot match any table entry, since every table entry's
/// identifier is below the cutoff.
proof fn lemma_skip_record_invariants(entries: Seq<TypeEntry>, c: Seq<TypeRecord>, at: int)
    requires
        0 <= at < c.len(),
        c[at].id >= BASE_TYPE_CUTOFF,
        forall|id: i64| #![trigger has_entry(entries, id)]
            has_entry(entries, id) <==> (id < BASE_TYPE_CUTOFF && exists|j: int|
                0 <= j < at && (#[trigger] c[j]).id == id),
        forall|k: int| 0 <= k < entries.len() ==> entry_named_upto(c, at, #[trigger] entries[k]),
    ensures
        forall|id: i64| #![trigger has_entry(entries, id)]
            has_entry(entries, id) <==> (id < BASE_TYPE_CUTOFF && exists|j: int|
                0 <= j <= at && (#[trigger] c[j]).id == id),
        forall|k: int|
            0 <= k < entries.len() ==> entry_named_upto(c, at + 1, #[trigger] entries[k]),
{
    assert forall|id: i64| #![trigger has_entry(entries, id)]
        has_entry(entries, id) <==> (id < BASE_TYPE_CUTOFF && exists|j: int|
            0 <= j <= at && (#[trigger] c[j]).id == id) by {
        if has_entry(entries, id) {
            let j = choose|j: int| 0 <= j < at && (#[trigger] c[j]).id == id;
            assert(0 <= j <= at && c[j].id == id);
        }
        if id < BASE_TYPE_CUTOFF && exists|j: int| 0 <= j <= at && (#[trigger] c[j]).id == id {
            let j = choose|j: int| 0 <= j <= at && (#[trigger] c[j]).id == id;
            assert(j < at);
            assert(has_entry(entries, id));
        }
    }
    assert forall|k: int| 0 <= k < entries.len() implies entry_named_upto(
        c,
        at + 1,
        #[trigger] entries[k],
    ) by {
        assert(has_entry(entries, entries[k].id));
        let j = choose|j: int|
            0 <= j < at && (#[trigger] c[j]).id == entries[k].id && (forall|j2: int|
                j < j2 < at ==> c[j2].id != entries[k].id) && entries[k].name@ == display_name(
                c[j],
            );
        assert((#[trigger] c[j]).id == entries[k].id && (forall|j2: int|
            j < j2 < at + 1 ==> c[j2].id != entries[k].id) && entries[k].name@ == display_name(
            c[j],
        ));
    }
}

/// After processing one more catalog record into the table (updating the
/// matching entry's name or pushing a new entry at multiplier one), the
/// construction invariants of `new` hold one record further.
proof fn lemma_upsert_invariants(pre: Seq<TypeEntry>, post: Seq<TypeEntry>, c: Seq<TypeRecord>, at: int)
    requires
        0 <= at < c.len(),
        c[at].id < BASE_TYPE_CUTOFF,
        ids_distinct(pre),
        forall|k: int| 0 <= k < pre.len() ==> (#[trigger] pre[k]).mult == spec_one(),
        forall|id: i64| #![trigger has_entry(pre, id)]
            has_entry(pre, id) <==> (id < BASE_TYPE_CUTOFF && exists|j: int|
                0 <= j < at && (#[trigger] c[j]).id == id),
        forall|k: int| 0 <= k < pre.len() ==> entry_named_upto(c, at, #[trigger] pre[k]),
        // either one entry's name was replaced ...
        (exists|k0: int|
            0 <= k0 < pre.len() && (#[trigger] pre[k0]).id == c[at].id && post.len() == pre.len()
                && post[k0].id == pre[k0].id && post[k0].mult == pre[k0].mult && post[k0].name@
                == display_name(c[at]) && (forall|k: int|
                0 <= k < pre.len() && k != k0 ==> post[k] == pre[k])) ||
        // ... or a fresh entry was pushed
        ((forall|k: int| 0 <= k < pre.len() ==> (#[trigger] pre[k]).id != c[at].id) && post.len()
            == pre.len() + 1 && (forall|k: int| 0 <= k < pre.len() ==> post[k] == pre[k])
            && post[pre.len() as int].id == c[at].id && post[pre.len() as int].mult == spec_one()
            && post[pre.len() as int].name@ == display_name(c[at])),
    ensures
        ids_distinct(post),
        forall|k: int| 0 <= k < post.len() ==> (#[trigger] post[k]).mult == spec_one(),
        forall|id: i64| #![trigger has_entry(post, id)]
            has_entry(post, id) <==> (id < BASE_TYPE_CUTOFF && exists|j: int|
                0 <= j <= at && (#[trigger] c[j]).id == id),
        forall|k: int| 0 <= k < post.len() ==> entry_named_upto(c, at + 1, #[trigger] post[k]),
{
    if exists|k0: int|
        0 <= k0 < pre.len() && (#[trigger] pre[k0]).id == c[at].id && post.len() == pre.len()
            && post[k0].id == pre[k0].id && post[k0].mult == pre[k0].mult && post[k0].name@
            == display_name(c[at]) && (forall|k: int|
            0 <= k < pre.len() && k != k0 ==> post[k] == pre[k]) {
        let k0 = choose|k0: int|
            0 <= k0 < pre.len() && (#[trigger] pre[k0]).id == c[at].id && post.len() == pre.len()
                && post[k0].id == pre[k0].id && post[k0].mult == pre[k0].mult && post[k0].name@
                == display_name(c[at]) && (forall|k: int|
                0 <= k < pre.len() && k != k0 ==> post[k] == pre[k]);
        assert forall|k: int| 0 <= k < post.len() implies post[k].id == pre[k].id by {}
        assert forall|id: i64| #![trigger has_entry(post, id)]
            has_entry(post, id) <==> (id < BASE_TYPE_CUTOFF && exists|j: int|
                0 <= j <= at && (#[trigger] c[j]).id == id) by {
            if has_entry(post, id) {
                let k = choose|k: int| 0 <= k < post.len() && post[k].id == id;
                assert(pre[k].id == id);
                assert(has_entry(pre, id));
                let j = choose|j: int| 0 <= j < at && (#[trigger] c[j]).id == id;
                assert(0 <= j <= at && c[j].id == id);
            }
            if id < BASE_TYPE_CUTOFF && exists|j: int| 0 <= j <= at && (#[trigger] c[j]).id == id {
                let j = choose|j: int| 0 <= j <= at && (#[trigger] c[j]).id == id;
                if j == at {
                    assert(pre[k0].id == id);
                    assert(post[k0].id == id);
                } else {
                    assert(has_entry(pre, id));
                    let k = choose|k: int| 0 <= k < pre.len() && pre[k].id == id;
                    assert(post[k].id == id);
                }
                assert(has_entry(post, id));
            }
        }
        assert forall|k: int| 0 <= k < post.len() implies entry_named_upto(
            c,
            at + 1,
            #[trigger] post[k],
        ) by {
            if k == k0 {
                assert((#[trigger] c[at]).id == post[k].id && (forall|j2: int|
                    at < j2 < at + 1 ==> c[j2].id != post[k].id) && post[k].name@
                    == display_name(c[at]));
            } else {
                assert(entry_named_upto(c, at, pre[k]));
                let j = choose|j: int|
                    0 <= j < at && (#[trigger] c[j]).id == pre[k].id && (forall|j2: int|
                        j < j2 < at ==> c[j2].id != pre[k].id) && pre[k].name@ == display_name(
                        c[j],
                    );
                assert(pre[k].id != pre[k0].id);
                assert(c[at].id != post[k].id);
                assert((#[trigger] c[j]).id == post[k].id && (forall|j2: int|
                    j < j2 < at + 1 ==> c[j2].id != post[k].id) && post[k].name@ == display_name(
                    c[j],
                ));
            }
        }
    } else {
        assert(forall|k: int| 0 <= k < pre.len() ==> (#[trigger] pre[k]).id != c[at].id);
        assert forall|id: i64|
            has_entry(post, id) <==> (id < BASE_TYPE_CUTOFF && exists|j: int|
                0 <= j <= at && (#[trigger] c[j]).id == id) by {
            if has_entry(post, id) {
                let k = choose|k: int| 0 <= k < post.len() && post[k].id == id;
                if k < pre.len() {
                    assert(has_entry(pre, id));
                } else {
                    assert(post[k].id == c[at].id);
                    assert((#[trigger] c[at]).id == id);
                }
            }
            if id < BASE_TYPE_CUTOFF && exists|j: int| 0 <= j <= at && (#[trigger] c[j]).id == id {
                let j = choose|j: int| 0 <= j <= at && (#[trigger] c[j]).id == id;
                if j == at {
                    assert(post[pre.len() as int].id == id);
                } else {
                    assert(has_entry(pre, id));
                    let k = choose|k: int| 0 <= k < pre.len() && pre[k].id == id;
                    assert(post[k].id == id);
                }
            }
        }
        assert forall|k: int| 0 <= k < post.len() implies entry_named_upto(
            c,
            at + 1,
            #[trigger] post[k],
        ) by {
            if k == pre.len() {
                assert((#[trigger] c[at]).id == post[k].id && (forall|j2: int|
                    at < j2 < at + 1 ==> c[j2].id != post[k].id) && post[k].name@
                    == display_name(c[at]));
            } else {
                assert(entry_named_upto(c, at, pre[k]));
                let j = choose|j: int|
                    0 <= j < at && (#[trigger] c[j]).id == pre[k].id && (forall|j2: int|
                        j < j2 < at ==> c[j2].id != pre[k].id) && pre[k].name@ == display_name(
                        c[j],
                    );
                assert(c[at].id != post[k].id);
                assert((#[trigger] c[j]).id == post[k].id && (forall|j2: int|
                    j < j2 < at + 1 ==> c[j2].id != post[k].id) && post[k].name@ == display_name(
                    c[j],
                ));
            }
        }
        assert forall|i: int, j: int| 0 <= i < j < post.len() implies post[i].id != post[j].id by {
            if j < pre.len() {
            } else {
                assert(post[i] == pre[i]);
            }
        }
    }
}

/// Doubling and then halving the multiplier of one type across two separate
/// relation applications returns the table exactly to its prior state, as
/// long as no exponent saturates. The same does not hold for a "no damage"
/// relation followed by a "double damage" one: zero absorbs both (see
/// [`crate::multiplier::lemma_zero_absorbs`]), so the order relations are
/// applied in matters.
pub proof fn lemma_double_then_half_restores(s: Seq<TypeEntry>, id: i64)
    requires
        forall|k: int| 0 <= k < s.len() ==> double_exact((#[trigger] s[k]).mult),
    ensures
        adjust_id(adjust_id(s, id, Adjust::Double), id, Adjust::Halve) == s,
{
    let s1 = adjust_id(s, id, Adjust::Double);
    let s2 = adjust_id(s1, id, Adjust::Halve);
    assert forall|k: int| 0 <= k < s.len() implies s2[k] == s[k] by {
        if s[k].id == id {
            lemma_halve_inverts_double(s[k].mult);
            assert(s2[k] =~= s[k]);
        }
    }
    assert(s2 =~= s);
}

/// Halving and then doubling likewise restores the table, as long as no
/// exponent saturates.
pub proof fn lemma_half_then_double_restores(s: Seq<TypeEntry>, id: i64)
    requires
        forall|k: int| 0 <= k < s.len() ==> halve_exact((#[trigger] s[k]).mult),
    ensures
        adjust_id(adjust_id(s, id, Adjust::Halve), id, Adjust::Double) == s,
{
    let s1 = adjust_id(s, id, Adjust::Halve);
    let s2 = adjust_id(s1, id, Adjust::Double);
    assert forall|k: int| 0 <= k < s.len() implies s2[k] == s[k] by {
        if s[k].id == id {
            lemma_double_inverts_halve(s[k].mult);
            assert(s2[k] =~= s[k]);
        }
    }
    assert(s2 =~= s);
}

/// An identifier no table entry carries leaves the table unchanged under
/// any adjustment: unknown type references are ignored.
pub proof fn lemma_unknown_id_ignored(s: Seq<TypeEntry>, id: i64, adjust: Adjust)
    requires
        !has_entry(s, id),
    ensures
        adjust_id(s, id, adjust) == s,
{
    assert forall|k: int| 0 <= k < s.len() implies adjust_id(s, id, adjust)[k] == s[k] by {
        assert(s[k].id != id);
    }
    assert(adjust_id(s, id, adjust) =~= s);
}

/// Within one group of a well-shaped report the names are pairwise
/// distinct: two type identifiers that share a display name collapse into
/// one name in that group.
pub proof fn lemma_names_deduplicated(rep: Seq<Group>, g: int, n1: int, n2: int)
    requires
        report_shaped(rep),
        0 <= g < rep.len(),
        0 <= n1 < rep[g].names@.len(),
        0 <= n2 < rep[g].names@.len(),
        n1 != n2,
    ensures
        (rep[g].names@[n1])@ != (rep[g].names@[n2])@,
{
    assert(group_sorted(rep[g]));
    if n1 < n2 {
        assert(name_lt((rep[g].names@[n1])@, (rep[g].names@[n2])@));
        lemma_name_lt_asymmetric((rep[g].names@[n1])@, (rep[g].names@[n2])@);
    } else {
        assert(name_lt((rep[g].names@[n2])@, (rep[g].names@[n1])@));
        lemma_name_lt_asymmetric((rep[g].names@[n2])@, (rep[g].names@[n1])@);
    }
}

/// Copies a list of names.
fn copy_names(src: &Vec<String>) -> (r: Vec<String>)
    ensures
        r@ == src@,
{
    let mut r: Vec<String> = Vec::new();
    let mut i: usize = 0;
    while i < src.len()
        invariant
            i <= src@.len(),
            r@.len() == i,
            forall|j: int| 0 <= j < i ==> r@[j] == src@[j],
        decreases src@.len() - i,
    {
        let s = &src[i];
        r.push(s.clone());
        i = i + 1;
    }
    proof {
        assert(r@ =~= src@);
    }
    r
}

/// Copies a report, group by group.
fn copy_groups(src: &Vec<Group>) -> (r: Vec<Group>)
    ensures
        groups_match(r@, src@),
{
    let mut r: Vec<Group> = Vec::new();
    let mut i: usize = 0;
    while i < src.len()
        invariant
            i <= src@.len(),
            r@.len() == i,
            forall|j: int|
                0 <= j < i ==> (#[trigger] r@[j]).hundredths == (#[trigger] src@[j]).hundredths
                    && r@[j].names@ == src@[j].names@,
        decreases src@.len() - i,
    {
        let g = &src[i];
        let names = copy_names(&g.names);
        r.push(Group { hundredths: g.hundredths, names });
        i = i + 1;
    }
    r
}

/// A report listing the same content as the report of a table is itself a
/// report of that table.
pub proof fn lemma_groups_match_report(s: Seq<TypeEntry>, a: Seq<Group>, b: Seq<Group>)
    requires
        groups_match(a, b),
        is_report(s, a),
    ensures
        is_report(s, b),
{
    assert forall|g1: int, g2: int|
        0 <= g1 < g2 < b.len() implies (#[trigger] b[g1]).hundredths > (
    #[trigger] b[g2]).hundredths by {
        assert(a[g1].hundredths > a[g2].hundredths);
    }
    assert forall|g: int| 0 <= g < b.len() implies (#[trigger] b[g]).names@.len() > 0 by {
        assert(a[g].names@.len() > 0);
    }
    assert forall|g: int| 0 <= g < b.len() implies group_sorted(#[trigger] b[g]) by {
        assert(group_sorted(a[g]));
        assert(b[g].names@ == a[g].names@);
    }
    assert forall|h: u16, name: Seq<char>|
        #![trigger reported(b, h, name)]
        #![trigger entry_with(s, h, name)]
        reported(b, h, name) <==> entry_with(s, h, name) by {
        if reported(b, h, name) {
            let g = choose|g: int|
                0 <= g < b.len() && (#[trigger] b[g]).hundredths == h && contains_name(
                    b[g].names@,
                    name,
                );
            assert((a[g]).hundredths == h && contains_name(a[g].names@, name));
            assert(reported(a, h, name));
        }
        if entry_with(s, h, name) {
            assert(reported(a, h, name));
            let g = choose|g: int|
                0 <= g < a.len() && (#[trigger] a[g]).hundredths == h && contains_name(
                    a[g].names@,
                    name,
                );
            assert((b[g]).hundredths == h && contains_name(b[g].names@, name));
            assert(reported(b, h, name));
        }
    }
}

/// Inserts a name into a sorted list of names, keeping the list sorted and
/// deduplicated: a name already present (by contents) is not added again.
fn insert_name(names: &Vec<String>, name: String) -> (r: Vec<String>)
    requires
        names_sorted(names@),
    ensures
        names_sorted(r@),
        r@.len() >= 1,
        forall|n2: Seq<char>|
            #![trigger contains_name(r@, n2)]
            #![trigger contains_name(names@, n2)]
            contains_name(r@, n2) <==> (contains_name(names@, n2) || n2 == name@),
{
    let n = names.len();
    let mut pos: usize = 0;
    while pos < n && str_lt(names[pos].as_str(), name.as_str())
        invariant
            n == names@.len(),
            pos <= n,
            forall|j: int| 0 <= j < pos ==> name_lt((#[trigger] names@[j])@, name@),
        decreases n - pos,
    {
        pos = pos + 1;
    }
    if pos < n && !str_lt(name.as_str(), names[pos].as_str()) {
        proof {
            lemma_name_lt_connected(name@, names@[pos as int]@);
            assert(name@ == names@[pos as int]@);
        }
        let r = copy_names(names);
        proof {
            assert((names@[pos as int])@ == name@);
            assert(contains_name(names@, name@));
        }
        r
    } else {
        let mut r = copy_names(names);
        r.insert(pos, name);
        proof {
            let rv = r@;
            let nv = names@;
            assert(rv == nv.insert(pos as int, name));
            assert forall|i: int, j: int|
                0 <= i < j < rv.len() implies name_lt((#[trigger] rv[i])@, (#[trigger] rv[j])@) by {
                if j < pos {
                    assert(rv[i] == nv[i] && rv[j] == nv[j]);
                } else if i < pos && j == pos {
                    assert(rv[i] == nv[i]);
                } else if i < pos && j > pos {
                    assert(rv[i] == nv[i] && rv[j] == nv[j - 1]);
                } else if i == pos && j > pos {
                    assert(rv[j] == nv[j - 1]);
                    assert(name_lt(name@, nv[pos as int]@));
                    if j - 1 > pos {
                        crate::order::lemma_name_lt_transitive(
                            name@,
                            nv[pos as int]@,
                            nv[j - 1]@,
                        );
                    }
                } else {
                    assert(rv[i] == nv[i - 1] && rv[j] == nv[j - 1]);
                }
            }
            assert forall|n2: Seq<char>|
                contains_name(rv, n2) <==> (contains_name(nv, n2) || n2 == name@) by {
                if contains_name(rv, n2) {
                    let i = choose|i: int| 0 <= i < rv.len() && (#[trigger] rv[i])@ == n2;
                    if i < pos {
                        assert((nv[i])@ == n2);
                    } else if i == pos {
                        assert(n2 == name@);
                    } else {
                        assert((nv[i - 1])@ == n2);
                    }
                }
                if contains_name(nv, n2) {
                    let i = choose|i: int| 0 <= i < nv.len() && (#[trigger] nv[i])@ == n2;
                    if i < pos {
                        assert((rv[i])@ == n2);
                    } else {
                        assert((rv[i + 1])@ == n2);
                    }
                }
                if n2 == name@ {
                    assert((rv[pos as int])@ == n2);
                }
            }
        }
        r
    }
}

/// Adds one table entry's multiplier and name to the report, creating the
/// group for that multiplier when none exists yet.
fn insert_into_report(rep: &mut Vec<Group>, h: u16, name: String)
    requires
        report_shaped(old(rep)@),
    ensures
        report_shaped(final(rep)@),
        forall|h2: u16, n2: Seq<char>|
            #![trigger reported(final(rep)@, h2, n2)]
            #![trigger reported(old(rep)@, h2, n2)]
            reported(final(rep)@, h2, n2) <==> (reported(old(rep)@, h2, n2) || (h2 == h && n2
                == name@)),
{
    let ghost r0 = rep@;
    let n = rep.len();
    let mut g: usize = 0;
    while g < n && rep[g].hundredths > h
        invariant
            rep@ == r0,
            n == r0.len(),
            g <= n,
            forall|j: int| 0 <= j < g ==> (#[trigger] r0[j]).hundredths > h,
        decreases n - g,
    {
        g = g + 1;
    }
    if g < n && rep[g].hundredths == h {
        let new_names = insert_name(&rep[g].names, name);
        rep[g].names = new_names;
        proof {
            let rv = rep@;
            assert(rv.len() == r0.len());
            assert(rv[g as int].hundredths == r0[g as int].hundredths);
            assert(forall|j: int| 0 <= j < rv.len() && j != g ==> rv[j] == r0[j]);
            assert forall|h2: u16, n2: Seq<char>|
                reported(rv, h2, n2) <==> (reported(r0, h2, n2) || (h2 == h && n2 == name@)) by {
                if reported(rv, h2, n2) {
                    let g2 = choose|g2: int|
                        0 <= g2 < rv.len() && (#[trigger] rv[g2]).hundredths == h2 && contains_name(
                            rv[g2].names@,
                            n2,
                        );
                    if g2 == g {
                        if contains_name(r0[g as int].names@, n2) {
                            assert(reported(r0, h2, n2));
                        } else {
                            assert(n2 == name@);
                        }
                    } else {
                        assert((r0[g2]).hundredths == h2 && contains_name(r0[g2].names@, n2));
                    }
                }
                if reported(r0, h2, n2) {
                    let g2 = choose|g2: int|
                        0 <= g2 < r0.len() && (#[trigger] r0[g2]).hundredths == h2 && contains_name(
                            r0[g2].names@,
                            n2,
                        );
                    if g2 == g {
                        assert(contains_name(rv[g as int].names@, n2));
                        assert((rv[g2]).hundredths == h2);
                    } else {
                        assert((rv[g2]).hundredths == h2 && contains_name(rv[g2].names@, n2));
                    }
                    assert(reported(rv, h2, n2));
                }
                if h2 == h && n2 == name@ {
                    assert(contains_name(rv[g as int].names@, n2));
                    assert((rv[g as int]).hundredths == h2);
                    assert(reported(rv, h2, n2));
                }
            }
        }
    } else {
        let mut names0: Vec<String> = Vec::new();
        names0.push(name);
        let ghost grp_names = names0@;
        rep.insert(g, Group { hundredths: h, names: names0 });
        proof {
            let rv = rep@;
            assert(rv == r0.insert(g as int, Group { hundredths: h, names: names0 }));
            assert(g < r0.len() ==> r0[g as int].hundredths < h);
            assert forall|i: int, j: int|
                0 <= i < j < rv.len() implies (#[trigger] rv[i]).hundredths > (
            #[trigger] rv[j]).hundredths by {
                if j < g {
                    assert(rv[i] == r0[i] && rv[j] == r0[j]);
                } else if i < g && j == g {
                    assert(rv[i] == r0[i]);
                } else if i < g && j > g {
                    assert(rv[i] == r0[i] && rv[j] == r0[j - 1]);
                } else if i == g && j > g {
                    assert(rv[j] == r0[j - 1]);
                } else {
                    assert(rv[i] == r0[i - 1] && rv[j] == r0[j - 1]);
                }
            }
            assert(grp_names.len() == 1 && (grp_names[0])@ == name@);
            assert(contains_name(grp_names, name@));
            assert forall|h2: u16, n2: Seq<char>|
                reported(rv, h2, n2) <==> (reported(r0, h2, n2) || (h2 == h && n2 == name@)) by {
                if reported(rv, h2, n2) {
                    let g2 = choose|g2: int|
                        0 <= g2 < rv.len() && (#[trigger] rv[g2]).hundredths == h2 && contains_name(
                            rv[g2].names@,
                            n2,
                        );
                    if g2 < g {
                        assert((r0[g2]).hundredths == h2 && contains_name(r0[g2].names@, n2));
                    } else if g2 == g {
                        let i = choose|i: int|
                            0 <= i < grp_names.len() && (#[trigger] grp_names[i])@ == n2;
                        assert(n2 == name@);
                    } else {
                        assert((r0[g2 - 1]).hundredths == h2 && contains_name(
                            r0[g2 - 1].names@,
                            n2,
                        ));
                    }
                }
                if reported(r0, h2, n2) {
                    let g2 = choose|g2: int|
                        0 <= g2 < r0.len() && (#[trigger] r0[g2]).hundredths == h2 && contains_name(
                            r0[g2].names@,
                            n2,
                        );
                    if g2 < g {
                        assert((rv[g2]).hundredths == h2 && contains_name(rv[g2].names@, n2));
                    } else {
                        assert((rv[g2 + 1]).hundredths == h2 && contains_name(
                            rv[g2 + 1].names@,
                            n2,
                        ));
                    }
                    assert(reported(rv, h2, n2));
                }
                if h2 == h && n2 == name@ {
                    assert((rv[g as int]).hundredths == h2 && contains_name(
                        rv[g as int].names@,
                        n2,
                    ));
                    assert(reported(rv, h2, n2));
                }
            }
        }
    }
}

/// Builds the report of a table from scratch.
fn build_report(entries: &Vec<TypeEntry>) -> (rep: Vec<Group>)
    ensures
        is_report(entries@, rep@),
{
    let mut rep: Vec<Group> = Vec::new();
    let mut k: usize = 0;
    while k < entries.len()
        invariant
            k <= entries@.len(),
            report_shaped(rep@),
            forall|h2: u16, n2: Seq<char>|
                #![trigger reported(rep@, h2, n2)]
                #![trigger entry_with(entries@.take(k as int), h2, n2)]
                reported(rep@, h2, n2) <==> entry_with(entries@.take(k as int), h2, n2),
        decreases entries@.len() - k,
    {
        let ghost r_prev = rep@;
        let h = entries[k].mult.hundredths();
        let name = entries[k].name.clone();
        insert_into_report(&mut rep, h, name);
        proof {
            lemma_entry_with_extend(entries@, k as int);
            assert forall|h2: u16, n2: Seq<char>|
                #![trigger reported(rep@, h2, n2)]
                #![trigger entry_with(entries@.take(k + 1), h2, n2)]
                reported(rep@, h2, n2) <==> entry_with(entries@.take(k + 1), h2, n2) by {
                assert(reported(rep@, h2, n2) <==> (reported(r_prev, h2, n2) || (h2 == h && n2
                    == name@)));
                assert(reported(r_prev, h2, n2) <==> entry_with(
                    entries@.take(k as int),
                    h2,
                    n2,
                ));
            }
        }
        k = k + 1;
    }
    proof {
        assert(entries@.take(entries@.len() as int) =~= entries@);
    }
    rep
}

/// Extending the processed prefix of a table by one entry extends exactly
/// that entry's multiplier/name pair.
proof fn lemma_entry_with_extend(s: Seq<TypeEntry>, k: int)
    requires
        0 <= k < s.len(),
    ensures
        forall|h2: u16, n2: Seq<char>|
            #![trigger entry_with(s.take(k + 1), h2, n2)]
            #![trigger entry_with(s.take(k), h2, n2)]
            entry_with(s.take(k + 1), h2, n2) <==> (entry_with(s.take(k), h2, n2) || (h2
                == spec_hundredths(s[k].mult) && n2 == s[k].name@)),
{
    assert forall|h2: u16, n2: Seq<char>|
        #![trigger entry_with(s.take(k + 1), h2, n2)]
        #![trigger entry_with(s.take(k), h2, n2)]
        entry_with(s.take(k + 1), h2, n2) <==> (entry_with(s.take(k), h2, n2) || (h2
            == spec_hundredths(s[k].mult) && n2 == s[k].name@)) by {
        if entry_with(s.take(k + 1), h2, n2) {
            let i = choose|i: int|
                0 <= i < s.take(k + 1).len() && spec_hundredths(
                    (#[trigger] s.take(k + 1)[i]).mult,
                ) == h2 && s.take(k + 1)[i].name@ == n2;
            if i < k {
                assert(s.take(k)[i] == s.take(k + 1)[i]);
                assert(entry_with(s.take(k), h2, n2));
            } else {
                assert(s.take(k + 1)[k] == s[k]);
            }
        }
        if entry_with(s.take(k), h2, n2) {
            let i = choose|i: int|
                0 <= i < s.take(k).len() && spec_hundredths((#[trigger] s.take(k)[i]).mult) == h2
                    && s.take(k)[i].name@ == n2;
            assert(s.take(k + 1)[i] == s.take(k)[i]);
            assert(entry_with(s.take(k + 1), h2, n2));
        }
        if h2 == spec_hundredths(s[k].mult) && n2 == s[k].name@ {
            assert(s.take(k + 1)[k] == s[k]);
            assert(entry_with(s.take(k + 1), h2, n2));
        }
    }
}

/// Some group of the report carries this multiplier key.
pub open spec fn has_key(rep: Seq<Group>, h: u16) -> bool {
    exists|g: int| 0 <= g < rep.len() && (#[trigger] rep[g]).hundredths == h
}

/// Two lists of names with the same text, position by position.
pub open spec fn names_equivalent(a: Seq<String>, b: Seq<String>) -> bool {
    &&& a.len() == b.len()
    &&& forall|i: int| 0 <= i < a.len() ==> ((#[trigger] a[i])@ == (#[trigger] b[i])@)
}

/// Two reports with the same content, position by position.
pub open spec fn reports_equivalent(a: Seq<Group>, b: Seq<Group>) -> bool {
    &&& a.len() == b.len()
    &&& forall|g: int|
        0 <= g < a.len() ==> ((#[trigger] a[g]).hundredths == (#[trigger] b[g]).hundredths
            && names_equivalent(a[g].names@, b[g].names@))
}

/// Two strictly ascending name lists that contain the same names are the
/// same text, position by position.
proof fn lemma_sorted_names_membership_equal(x: Seq<String>, y: Seq<String>)
    requires
        names_sorted(x),
        names_sorted(y),
        forall|n: Seq<char>|
            #![trigger contains_name(x, n)]
            #![trigger contains_name(y, n)]
            contains_name(x, n) <==> contains_name(y, n),
    ensures
        names_equivalent(x, y),
    decreases x.len(),
{
    if x.len() == 0 {
        if y.len() > 0 {
            assert(contains_name(y, (y[0])@));
            assert(contains_name(x, (y[0])@));
            let i = choose|i: int| 0 <= i < x.len() && (#[trigger] x[i])@ == (y[0])@;
            assert(false);
        }
    } else if y.len() == 0 {
        assert(contains_name(x, (x[0])@));
        assert(contains_name(y, (x[0])@));
        let i = choose|i: int| 0 <= i < y.len() && (#[trigger] y[i])@ == (x[0])@;
        assert(false);
    } else {
        assert(contains_name(x, (x[0])@));
        assert(contains_name(y, (x[0])@));
        let i = choose|i: int| 0 <= i < y.len() && (#[trigger] y[i])@ == (x[0])@;
        assert(contains_name(y, (y[0])@));
        assert(contains_name(x, (y[0])@));
        let j = choose|j: int| 0 <= j < x.len() && (#[trigger] x[j])@ == (y[0])@;
        if i == 0 {
            assert((x[0])@ == (y[0])@);
        } else if j == 0 {
            assert((x[0])@ == (y[0])@);
        } else {
            assert(name_lt((y[0])@, (y[i])@));
            assert(name_lt((x[0])@, (x[j])@));
            lemma_name_lt_asymmetric((x[0])@, (y[0])@);
            assert(false);
        }
        let xt = x.drop_first();
        let yt = y.drop_first();
        assert forall|i2: int, j2: int|
            0 <= i2 < j2 < xt.len() implies name_lt((#[trigger] xt[i2])@, (#[trigger] xt[j2])@) by {
            assert(xt[i2] == x[i2 + 1]);
            assert(xt[j2] == x[j2 + 1]);
        }
        assert forall|i2: int, j2: int|
            0 <= i2 < j2 < yt.len() implies name_lt((#[trigger] yt[i2])@, (#[trigger] yt[j2])@) by {
            assert(yt[i2] == y[i2 + 1]);
            assert(yt[j2] == y[j2 + 1]);
        }
        assert forall|n: Seq<char>|
            #![trigger contains_name(xt, n)]
            #![trigger contains_name(yt, n)]
            contains_name(xt, n) <==> contains_name(yt, n) by {
            if contains_name(xt, n) {
                let k = choose|k: int| 0 <= k < xt.len() && (#[trigger] xt[k])@ == n;
                assert(xt[k] == x[k + 1]);
                assert(contains_name(x, n));
                assert(name_lt((x[0])@, n));
                assert(contains_name(y, n));
                let m = choose|m: int| 0 <= m < y.len() && (#[trigger] y[m])@ == n;
                if m == 0 {
                    lemma_name_lt_asymmetric((x[0])@, n);
                    assert(false);
                }
                assert(yt[m - 1] == y[m]);
                assert(contains_name(yt, n));
            }
            if contains_name(yt, n) {
                let k = choose|k: int| 0 <= k < yt.len() && (#[trigger] yt[k])@ == n;
                assert(yt[k] == y[k + 1]);
                assert(contains_name(y, n));
                assert(name_lt((y[0])@, n));
                assert(contains_name(x, n));
                let m = choose|m: int| 0 <= m < x.len() && (#[trigger] x[m])@ == n;
                if m == 0 {
                    lemma_name_lt_asymmetric((y[0])@, n);
                    assert(false);
                }
                assert(xt[m - 1] == x[m]);
                assert(contains_name(xt, n));
            }
        }
        lemma_sorted_names_membership_equal(xt, yt);
        assert forall|k: int| 0 <= k < x.len() implies ((#[trigger] x[k])@ == (#[trigger] y[k])@) by {
            if k > 0 {
                assert(xt[k - 1] == x[k]);
                assert(yt[k - 1] == y[k]);
                assert((xt[k - 1])@ == (yt[k - 1])@);
            }
        }
    }
}

/// Two strictly descending key lists that carry the same keys agree,
/// position by position.
proof fn lemma_descending_keys_membership_equal(a: Seq<Group>, b: Seq<Group>)
    requires
        keys_descending(a),
        keys_descending(b),
        forall|h: u16| #![trigger has_key(a, h)] #![trigger has_key(b, h)]
            has_key(a, h) <==> has_key(b, h),
    ensures
        a.len() == b.len(),
        forall|g: int|
            0 <= g < a.len() ==> (#[trigger] a[g]).hundredths == (#[trigger] b[g]).hundredths,
    decreases a.len(),
{
    if a.len() == 0 {
        if b.len() > 0 {
            assert(has_key(b, b[0].hundredths));
            assert(has_key(a, b[0].hundredths));
            let g = choose|g: int| 0 <= g < a.len() && (#[trigger] a[g]).hundredths == b[0].hundredths;
            assert(false);
        }
    } else if b.len() == 0 {
        assert(has_key(a, a[0].hundredths));
        assert(has_key(b, a[0].hundredths));
        let g = choose|g: int| 0 <= g < b.len() && (#[trigger] b[g]).hundredths == a[0].hundredths;
        assert(false);
    } else {
        assert(has_key(a, a[0].hundredths));
        assert(has_key(b, a[0].hundredths));
        let i = choose|i: int| 0 <= i < b.len() && (#[trigger] b[i]).hundredths == a[0].hundredths;
        assert(has_key(b, b[0].hundredths));
        assert(has_key(a, b[0].hundredths));
        let j = choose|j: int| 0 <= j < a.len() && (#[trigger] a[j]).hundredths == b[0].hundredths;
        if i > 0 && j > 0 {
            assert(b[0].hundredths > b[i].hundredths);
            assert(a[0].hundredths > a[j].hundredths);
            assert(false);
        }
        assert(a[0].hundredths == b[0].hundredths);
        let at = a.drop_first();
        let bt = b.drop_first();
        assert forall|g1: int, g2: int|
            0 <= g1 < g2 < at.len() implies (#[trigger] at[g1]).hundredths > (
        #[trigger] at[g2]).hundredths by {
            assert(at[g1] == a[g1 + 1]);
            assert(at[g2] == a[g2 + 1]);
        }
        assert forall|g1: int, g2: int|
            0 <= g1 < g2 < bt.len() implies (#[trigger] bt[g1]).hundredths > (
        #[trigger] bt[g2]).hundredths by {
            assert(bt[g1] == b[g1 + 1]);
            assert(bt[g2] == b[g2 + 1]);
        }
        assert forall|h: u16| #![trigger has_key(at, h)] #![trigger has_key(bt, h)]
            has_key(at, h) <==> has_key(bt, h) by {
            if has_key(at, h) {
                let k = choose|k: int| 0 <= k < at.len() && (#[trigger] at[k]).hundredths == h;
                assert(at[k] == a[k + 1]);
                assert(has_key(a, h));
                assert(a[0].hundredths > h);
                assert(has_key(b, h));
                let m = choose|m: int| 0 <= m < b.len() && (#[trigger] b[m]).hundredths == h;
                assert(m > 0);
                assert(bt[m - 1] == b[m]);
                assert(has_key(bt, h));
            }
            if has_key(bt, h) {
                let k = choose|k: int| 0 <= k < bt.len() && (#[trigger] bt[k]).hundredths == h;
                assert(bt[k] == b[k + 1]);
                assert(has_key(b, h));
                assert(b[0].hundredths > h);
                assert(has_key(a, h));
                let m = choose|m: int| 0 <= m < a.len() && (#[trigger] a[m]).hundredths == h;
                assert(m > 0);
                assert(at[m - 1] == a[m]);
                assert(has_key(at, h));
            }
        }
        lemma_descending_keys_membership_equal(at, bt);
        assert forall|g: int|
            0 <= g < a.len() implies (#[trigger] a[g]).hundredths == (#[trigger] b[g]).hundredths by {
            if g > 0 {
                assert(at[g - 1] == a[g]);
                assert(bt[g - 1] == b[g]);
                assert(at[g - 1].hundredths == bt[g - 1].hundredths);
            }
        }
    }
}

/// The report of a table is unique: any two reports of the same table carry
/// the same groups, in the same order, with the same names. The contract of
/// `get` therefore determines its result's content completely.
pub proof fn lemma_report_unique(s: Seq<TypeEntry>, a: Seq<Group>, b: Seq<Group>)
    requires
        is_report(s, a),
        is_report(s, b),
    ensures
        reports_equivalent(a, b),
{
    assert forall|h: u16| #![trigger has_key(a, h)] #![trigger has_key(b, h)]
        has_key(a, h) <==> has_key(b, h) by {
        if has_key(a, h) {
            let g = choose|g: int| 0 <= g < a.len() && (#[trigger] a[g]).hundredths == h;
            let n = (a[g].names@[0])@;
            assert(contains_name(a[g].names@, n));
            assert(reported(a, h, n));
            assert(entry_with(s, h, n));
            assert(reported(b, h, n));
            let g2 = choose|g2: int|
                0 <= g2 < b.len() && (#[trigger] b[g2]).hundredths == h && contains_name(
                    b[g2].names@,
                    n,
                );
            assert(has_key(b, h));
        }
        if has_key(b, h) {
            let g = choose|g: int| 0 <= g < b.len() && (#[trigger] b[g]).hundredths == h;
            let n = (b[g].names@[0])@;
            assert(contains_name(b[g].names@, n));
            assert(reported(b, h, n));
            assert(entry_with(s, h, n));
            assert(reported(a, h, n));
            let g2 = choose|g2: int|
                0 <= g2 < a.len() && (#[trigger] a[g2]).hundredths == h && contains_name(
                    a[g2].names@,
                    n,
                );
            assert(has_key(a, h));
        }
    }
    lemma_descending_keys_membership_equal(a, b);
    assert forall|g: int|
        0 <= g < a.len() implies names_equivalent((#[trigger] a[g]).names@, (
    #[trigger] b[g]).names@) by {
        let h = a[g].hundredths;
        assert forall|n: Seq<char>|
            #![trigger contains_name(a[g].names@, n)]
            #![trigger contains_name(b[g].names@, n)]
            contains_name(a[g].names@, n) <==> contains_name(b[g].names@, n) by {
            if contains_name(a[g].names@, n) {
                assert(reported(a, h, n));
                assert(entry_with(s, h, n));
                assert(reported(b, h, n));
                let g2 = choose|g2: int|
                    0 <= g2 < b.len() && (#[trigger] b[g2]).hundredths == h && contains_name(
                        b[g2].names@,
                        n,
                    );
                if g2 < g {
                    assert(b[g2].hundredths > b[g].hundredths);
                    assert(false);
                }
                if g2 > g {
                    assert(b[g].hundredths > b[g2].hundredths);
                    assert(false);
                }
                assert(contains_name(b[g].names@, n));
            }
            if contains_name(b[g].names@, n) {
                assert(reported(b, h, n));
                assert(entry_with(s, h, n));
                assert(reported(a, h, n));
                let g2 = choose|g2: int|
                    0 <= g2 < a.len() && (#[trigger] a[g2]).hundredths == h && contains_name(
                        a[g2].names@,
                        n,
                    );
                if g2 < g {
                    assert(a[g2].hundredths > a[g].hundredths);
                    assert(false);
                }
                if g2 > g {
                    assert(a[g].hundredths > a[g2].hundredths);
                    assert(false);
                }
                assert(contains_name(a[g].names@, n));
            }
        }
        lemma_sorted_names_membership_equal(a[g].names@, b[g].names@);
    }
}

} // verus!

