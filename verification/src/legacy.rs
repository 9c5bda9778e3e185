//! Class selection of the single-image detector: the class whose score first
//! rises above a running maximum that starts at a floor (the score 0.0), and
//! its name in a JSON object keyed by class index.

use vstd::prelude::*;
use crate::names::{JsonField, fields_view, text_view};
use crate::text::{chars_of, decimal, decimal_chars, same_chars};

verus! {

/// The first index whose score is the largest and above the floor, with
/// that score; `(None, floor)` where no score is above the floor.
pub open spec fn strongest(scores: Seq<u64>, floor: u64) -> (Option<int>, u64)
    decreases scores.len(),
{
    if scores.len() == 0 {
        (None, floor)
    } else {
        let (i, m) = strongest(scores.drop_last(), floor);
        if scores.last() > m {
            (Some(scores.len() - 1), scores.last())
        } else {
            (i, m)
        }
    }
}

/// The class index of the strongest score: `-4` where none is above the
/// floor (the index 0 of the output row, less the four box coordinates).
pub open spec fn strongest_class(scores: Seq<u64>, floor: u64) -> int {
    match strongest(scores, floor).0 {
        Some(i) => i,
        None => -4,
    }
}

/// Picks the class of one prediction: the strongest score, where it is above
/// the confidence, with its class index.
pub fn pick_class(scores: &Vec<u64>, floor: u64, confidence: u64) -> (r: Option<(i64, u64)>)
    requires
        scores.len() <= i64::MAX,
    ensures
        match r {
            Some((c, m)) => strongest(scores@, floor).1 > confidence && m == strongest(
                scores@,
                floor,
            ).1 && c == strongest_class(scores@, floor),
            None => strongest(scores@, floor).1 <= confidence,
        },
{
    let mut best: u64 = floor;
    let mut class: i64 = -4;
    let n = scores.len();
    for i in 0..n
        invariant
            n == scores.len(),
            n <= i64::MAX,
            best == strongest(scores@.take(i as int), floor).1,
            class == strongest_class(scores@.take(i as int), floor),
    {
        proof {
            assert(scores@.take(i + 1).drop_last() =~= scores@.take(i as int));
        }
        if scores[i] > best {
            best = scores[i];
            class = i as i64;
        }
    }
    proof {
        assert(scores@.take(n as int) =~= scores@);
    }
    if best > confidence {
        Some((class, best))
    } else {
        None
    }
}

/// The text of the first member whose key is `key`, where that member's value
/// is a string.
pub open spec fn text_of_key(
    fields: Seq<(Seq<char>, Option<Seq<char>>, Option<Seq<(Seq<char>, Option<Seq<char>>)>>)>,
    key: Seq<char>,
) -> Option<Seq<char>>
    decreases fields.len(),
{
    if fields.len() == 0 {
        None
    } else if fields[0].0 == key {
        fields[0].1
    } else {
        text_of_key(fields.drop_first(), key)
    }
}

/// The name of a class in a JSON object keyed by class index, as
/// `types[class.to_string()].as_str()` gives it: `None` where the document is
/// no object, has no such key, or its value is not a string.
pub fn class_name(fields: &Option<Vec<JsonField>>, class: i64) -> (r: Option<String>)
    ensures
        r.is_some() == (fields_view(*fields) is Some && text_of_key(
            fields_view(*fields).unwrap(),
            decimal(class as int),
        ) is Some),
        r matches Some(t) ==> text_of_key(fields_view(*fields).unwrap(), decimal(class as int))
            == Some(t@),
{
    match fields {
        None => None,
        Some(fs) => {
            let key = decimal_chars(class);
            let ghost fv = fields_view(*fields).unwrap();
            let n = fs.len();
            let mut i: usize = 0;
            assert(fv.skip(0) =~= fv);
            while i < n
                invariant
                    n == fs.len(),
                    i <= n,
                    fv == fs@.map_values(|f: JsonField| crate::names::field_view(f)),
                    key@ == decimal(class as int),
                    fields_view(*fields) == Some(fv),
                    text_of_key(fv, key@) == text_of_key(fv.skip(i as int), key@),
                decreases n - i,
            {
                proof {
                    assert(fv.skip(i as int).drop_first() =~= fv.skip(i + 1));
                    assert(fv.skip(i as int)[0] == crate::names::field_view(fs@[i as int]));
                }
                if same_chars(&chars_of(fs[i].key.as_str()), &key) {
                    proof {
                        assert(fv.skip(i as int)[0].0 == key@);
                        assert(text_of_key(fv.skip(i as int), key@) == text_view(fs@[i as int].text));
                    }
                    return match &fs[i].text {
                        Some(t) => Some(t.clone()),
                        None => None,
                    };
                }
                i = i + 1;
            }
            None
        },
    }
}

/// The strongest score is at least the floor and every score. Where some
/// score is above the floor, the chosen index holds the strongest score and
/// is the first such index; otherwise nothing is chosen and the floor stays.
pub proof fn lemma_strongest_is_first_maximum(scores: Seq<u64>, floor: u64)
    ensures
        strongest(scores, floor).1 >= floor,
        forall|k: int| 0 <= k < scores.len() ==> strongest(scores, floor).1 >= #[trigger] scores[k],
        match strongest(scores, floor).0 {
            Some(i) => {
                &&& 0 <= i < scores.len()
                &&& scores[i] == strongest(scores, floor).1
                &&& scores[i] > floor
                &&& forall|k: int| 0 <= k < i ==> #[trigger] scores[k] < scores[i]
            },
            None => strongest(scores, floor).1 == floor,
        },
    decreases scores.len(),
{
    if scores.len() > 0 {
        let u = scores.drop_last();
        let n = scores.len() - 1;
        lemma_strongest_is_first_maximum(u, floor);
        let (i, m) = strongest(u, floor);
        assert(forall|k: int| 0 <= k < u.len() ==> #[trigger] u[k] == scores[k]);
        assert(scores.last() == scores[n]);
        if scores.last() > m {
            assert(strongest(scores, floor) == (Some(n), scores[n]));
            assert forall|k: int| 0 <= k < scores.len() implies strongest(scores, floor).1
                >= #[trigger] scores[k] by {
                if k < n {
                    assert(m >= u[k]);
                }
            }
            assert forall|k: int| 0 <= k < n implies #[trigger] scores[k] < scores[n] by {
                assert(m >= u[k]);
            }
        } else {
            assert(strongest(scores, floor) == (i, m));
            assert forall|k: int| 0 <= k < scores.len() implies strongest(scores, floor).1
                >= #[trigger] scores[k] by {
                if k < n {
                    assert(m >= u[k]);
                }
            }
            match i {
                Some(j) => {
                    assert(scores[j] == u[j]);
                    assert forall|k: int| 0 <= k < j implies #[trigger] scores[k] < scores[j] by {
                        assert(u[k] < u[j]);
                    }
                },
                None => {},
            }
        }
    }
}

/// The first member whose key is `key` decides the lookup: its text, where
/// its value is a string.
pub proof fn lemma_text_of_key_first(
    fields: Seq<(Seq<char>, Option<Seq<char>>, Option<Seq<(Seq<char>, Option<Seq<char>>)>>)>,
    key: Seq<char>,
    j: int,
)
    requires
        0 <= j < fields.len(),
        fields[j].0 == key,
        forall|i: int| 0 <= i < j ==> #[trigger] fields[i].0 != key,
    ensures
        text_of_key(fields, key) == fields[j].1,
    decreases j,
{
    if j > 0 {
        assert forall|i: int| 0 <= i < j - 1 implies #[trigger] fields.drop_first()[i].0 != key by {
            assert(fields.drop_first()[i] == fields[i + 1]);
        }
        assert(fields[0].0 != key);
        lemma_text_of_key_first(fields.drop_first(), key, j - 1);
    }
}

/// Where no member has the key `key`, the lookup finds nothing.
pub proof fn lemma_text_of_key_absent(
    fields: Seq<(Seq<char>, Option<Seq<char>>, Option<Seq<(Seq<char>, Option<Seq<char>>)>>)>,
    key: Seq<char>,
)
    requires
        forall|i: int| 0 <= i < fields.len() ==> #[trigger] fields[i].0 != key,
    ensures
        text_of_key(fields, key) is None,
    decreases fields.len(),
{
    if fields.len() > 0 {
        assert forall|i: int| 0 <= i < fields.len() - 1 implies #[trigger] fields.drop_first()[i].0
            != key by {
            assert(fields.drop_first()[i] == fields[i + 1]);
        }
        assert(fields[0].0 != key);
        lemma_text_of_key_absent(fields.drop_first(), key);
    }
}

} // verus!
