//! Selecting one entry from a list of candidates.
//!
//! The game-data API localizes names and effect texts: each record carries a
//! list of entries tagged with a language. The tool wants the English entry,
//! and falls back to the first entry when no English one exists; an empty
//! list is an error.

use vstd::prelude::*;
use crate::error::MatchupError;
use crate::model::LocalizedName;

verus! {

/// True when `predicate` can return `true` on a reference to `x`.
pub open spec fn accepts<T, F: Fn(&T) -> bool>(predicate: F, x: T) -> bool {
    call_ensures(predicate, (&x,), true)
}

/// True when `predicate` can return `false` on a reference to `x`.
pub open spec fn rejects<T, F: Fn(&T) -> bool>(predicate: F, x: T) -> bool {
    call_ensures(predicate, (&x,), false)
}

/// Returns the first element the predicate accepts; if it rejects every
/// element, the first element; on an empty list, an error.
pub fn linear_search<T, F: Fn(&T) -> bool>(list: &[T], predicate: F) -> (r: Result<
    &T,
    MatchupError,
>)
    requires
        forall|i: int| 0 <= i < list@.len() ==> #[trigger] call_requires(predicate, (&list[i],)),
    ensures
        match r {
            Result::Ok(v) => list@.len() > 0 && ((exists|i: int|
                0 <= i < list@.len() && *v == list[i] && #[trigger] accepts(predicate, list[i])
                    && (forall|j: int| 0 <= j < i ==> #[trigger] rejects(predicate, list[j]))) || (
            *v == list[0] && forall|j: int|
                0 <= j < list@.len() ==> #[trigger] rejects(predicate, list[j]))),
            Result::Err(e) => list@.len() == 0 && e == MatchupError::NoSuitableValue,
        },
{
    let mut i: usize = 0;
    while i < list.len()
        invariant
            i <= list@.len(),
            forall|k: int| 0 <= k < list@.len() ==> #[trigger] call_requires(predicate, (&list[k],)),
            forall|j: int| 0 <= j < i ==> #[trigger] rejects(predicate, list[j]),
        decreases list@.len() - i,
    {
        if predicate(&list[i]) {
            proof {
                assert(accepts(predicate, list[i as int]));
            }
            return Result::Ok(&list[i]);
        }
        proof {
            assert(rejects(predicate, list[i as int]));
        }
        i = i + 1;
    }
    if list.len() > 0 {
        Result::Ok(&list[0])
    } else {
        Result::Err(MatchupError::NoSuitableValue)
    }
}

/// The index of the first entry whose language is "en", or the length of the
/// list when no entry is English.
pub open spec fn english_index(langs: Seq<Seq<char>>) -> int
    decreases langs.len(),
{
    if langs.len() == 0 {
        0
    } else if langs[0] == "en"@ {
        0
    } else {
        1 + english_index(langs.drop_first())
    }
}

/// The index of the entry English-name selection picks: the first English
/// entry, or the first entry when none is English.
pub open spec fn english_choice(langs: Seq<Seq<char>>) -> int {
    if english_index(langs) < langs.len() {
        english_index(langs)
    } else {
        0
    }
}

/// The language tags of a list of localized names.
pub open spec fn languages_of(list: Seq<LocalizedName>) -> Seq<Seq<char>> {
    list.map_values(|n: LocalizedName| n.language@)
}

/// `english_index` is at most the length of the list.
pub proof fn lemma_english_index_bound(langs: Seq<Seq<char>>)
    ensures
        0 <= english_index(langs) <= langs.len(),
    decreases langs.len(),
{
    if langs.len() > 0 && langs[0] != "en"@ {
        lemma_english_index_bound(langs.drop_first());
    }
}

/// `english_index` is the first English position: if position `i` is English
/// and no earlier position is, the index is `i`.
pub proof fn lemma_english_index_first(langs: Seq<Seq<char>>, i: int)
    requires
        0 <= i < langs.len(),
        langs[i] == "en"@,
        forall|j: int| 0 <= j < i ==> langs[j] != "en"@,
    ensures
        english_index(langs) == i,
    decreases i,
{
    if i > 0 {
        assert(langs[0] != "en"@);
        assert forall|j: int| 0 <= j < i - 1 implies langs.drop_first()[j] != "en"@ by {
            assert(langs.drop_first()[j] == langs[j + 1]);
        }
        assert(langs.drop_first()[i - 1] == langs[i]);
        lemma_english_index_first(langs.drop_first(), i - 1);
    }
}

/// When no position is English, `english_index` is the length of the list.
pub proof fn lemma_english_index_none(langs: Seq<Seq<char>>)
    requires
        forall|j: int| 0 <= j < langs.len() ==> langs[j] != "en"@,
    ensures
        english_index(langs) == langs.len(),
    decreases langs.len(),
{
    if langs.len() > 0 {
        assert forall|j: int| 0 <= j < langs.len() - 1 implies langs.drop_first()[j] != "en"@ by {
            assert(langs.drop_first()[j] == langs[j + 1]);
        }
        lemma_english_index_none(langs.drop_first());
    }
}

/// Selects the English entry of a list of localized names, falling back to
/// the first entry when no English one exists; an empty list is an error.
pub fn english_search(list: &[LocalizedName]) -> (r: Result<&LocalizedName, MatchupError>)
    ensures
        match r {
            Result::Ok(v) => list@.len() > 0 && *v == list[english_choice(languages_of(list@))],
            Result::Err(e) => list@.len() == 0 && e == MatchupError::NoSuitableValue,
        },
{
    let pred = |n: &LocalizedName| -> (b: bool)
        ensures
            b == (n.language@ == "en"@),
        {
            let en: String = "en".to_owned();
            n.language == en
        };
    let result = linear_search(list, pred);
    proof {
        let langs = languages_of(list@);
        assert(langs.len() == list@.len());
        match result {
            Result::Ok(v) => {
                if exists|i: int|
                    0 <= i < list@.len() && *v == list[i] && #[trigger] accepts(pred, list[i]) && (
                    forall|j: int| 0 <= j < i ==> #[trigger] rejects(pred, list[j])) {
                    let i = choose|i: int|
                        0 <= i < list@.len() && *v == list[i] && #[trigger] accepts(pred, list[i])
                            && (forall|j: int| 0 <= j < i ==> #[trigger] rejects(pred, list[j]));
                    assert(langs[i] == list@[i].language@);
                    assert(langs[i] == "en"@);
                    assert forall|j: int| 0 <= j < i implies langs[j] != "en"@ by {
                        assert(rejects(pred, list[j]));
                        assert(langs[j] == list@[j].language@);
                    }
                    lemma_english_index_first(langs, i);
                    assert(english_choice(langs) == i);
                } else {
                    assert(*v == list[0]);
                    assert forall|j: int| 0 <= j < langs.len() implies langs[j] != "en"@ by {
                        assert(rejects(pred, list[j]));
                        assert(langs[j] == list@[j].language@);
                    }
                    lemma_english_index_none(langs);
                    assert(english_choice(langs) == 0);
                }
            },
            Result::Err(_) => {},
        }
    }
    result
}

/// Selects the first entry of a list that the given test marks as English,
/// falling back to the first entry when none is; an empty list is an error.
/// The caller supplies the test because the entry type (and where its
/// language tag sits) belongs to the caller.
pub fn english_search_by<T, F: Fn(&T) -> bool>(list: &[T], is_english: F) -> (r: Result<
    &T,
    MatchupError,
>)
    requires
        forall|i: int| 0 <= i < list@.len() ==> #[trigger] call_requires(is_english, (&list[i],)),
    ensures
        match r {
            Result::Ok(v) => list@.len() > 0 && ((exists|i: int|
                0 <= i < list@.len() && *v == list[i] && #[trigger] accepts(is_english, list[i])
                    && (forall|j: int| 0 <= j < i ==> #[trigger] rejects(is_english, list[j]))) || (
            *v == list[0] && forall|j: int|
                0 <= j < list@.len() ==> #[trigger] rejects(is_english, list[j]))),
            Result::Err(e) => list@.len() == 0 && e == MatchupError::NoSuitableValue,
        },
{
    linear_search(list, is_english)
}

} // verus!
