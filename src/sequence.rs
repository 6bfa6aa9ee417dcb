//! Keys kept in strictly increasing order, and the insertions that keep them so.
use vstd::prelude::*;
use crate::digits::{key_lt, lemma_key_lt_transitive, wf_digits};
use crate::placement::{
    after_digits, before_digits, between_digits, lemma_after_props, lemma_before_props,
    lemma_between_props,
};

verus! {

/// Every key of the sequence is well formed.
pub open spec fn all_wf(keys: Seq<Seq<u8>>) -> bool {
    forall|i: int| 0 <= i < keys.len() ==> wf_digits(#[trigger] keys[i])
}

/// Each key of the sequence is below the next one.
pub open spec fn strictly_increasing(keys: Seq<Seq<u8>>) -> bool {
    forall|i: int| 0 <= i < keys.len() - 1 ==> key_lt(#[trigger] keys[i], keys[i + 1])
}

/// Inserting `before` the first key at the front keeps the sequence strictly increasing.
pub proof fn lemma_insert_before_head(keys: Seq<Seq<u8>>, delta: nat)
    requires
        keys.len() > 0,
        all_wf(keys),
        strictly_increasing(keys),
        delta > 0,
    ensures
        all_wf(keys.insert(0, before_digits(keys[0], delta))),
        strictly_increasing(keys.insert(0, before_digits(keys[0], delta))),
{
    let r = keys.insert(0, before_digits(keys[0], delta));
    lemma_before_props(keys[0], delta);
    assert forall|i: int| 0 <= i < r.len() - 1 implies key_lt(#[trigger] r[i], r[i + 1]) by {
        if i > 0 {
            assert(r[i] == keys[i - 1] && r[i + 1] == keys[i]);
        }
    }
    assert forall|i: int| 0 <= i < r.len() implies wf_digits(#[trigger] r[i]) by {
        if i > 0 {
            assert(r[i] == keys[i - 1]);
        }
    }
}

/// Appending `after` the last key keeps the sequence strictly increasing.
pub proof fn lemma_insert_after_tail(keys: Seq<Seq<u8>>, delta: nat)
    requires
        keys.len() > 0,
        all_wf(keys),
        strictly_increasing(keys),
        delta > 0,
    ensures
        all_wf(keys.push(after_digits(keys.last(), delta))),
        strictly_increasing(keys.push(after_digits(keys.last(), delta))),
{
    let r = keys.push(after_digits(keys.last(), delta));
    lemma_after_props(keys.last(), delta);
    assert forall|i: int| 0 <= i < r.len() - 1 implies key_lt(#[trigger] r[i], r[i + 1]) by {
        if i < keys.len() - 1 {
            assert(r[i] == keys[i] && r[i + 1] == keys[i + 1]);
        }
    }
    assert forall|i: int| 0 <= i < r.len() implies wf_digits(#[trigger] r[i]) by {
        if i < keys.len() {
            assert(r[i] == keys[i]);
        }
    }
}

/// Inserting `between` two neighbours, in the gap after position `i`, keeps the sequence
/// strictly increasing.
pub proof fn lemma_insert_between(keys: Seq<Seq<u8>>, i: int)
    requires
        0 <= i < keys.len() - 1,
        all_wf(keys),
        strictly_increasing(keys),
    ensures
        all_wf(keys.insert(i + 1, between_digits(keys[i], keys[i + 1]))),
        strictly_increasing(keys.insert(i + 1, between_digits(keys[i], keys[i + 1]))),
{
    let a = keys[i];
    let b = keys[i + 1];
    let r = keys.insert(i + 1, between_digits(a, b));
    assert(key_lt(a, b));
    assert(a != b) by {
        crate::digits::lemma_key_lt_irreflexive(a);
    }
    lemma_between_props(a, b);
    assert forall|t: int| 0 <= t < r.len() - 1 implies key_lt(#[trigger] r[t], r[t + 1]) by {
        if t < i {
            assert(r[t] == keys[t] && r[t + 1] == keys[t + 1]);
        } else if t > i + 1 {
            assert(r[t] == keys[t - 1] && r[t + 1] == keys[t]);
        }
    }
    assert forall|t: int| 0 <= t < r.len() implies wf_digits(#[trigger] r[t]) by {
        if t < i + 1 {
            assert(r[t] == keys[t]);
        } else if t > i + 1 {
            assert(r[t] == keys[t - 1]);
        }
    }
}

/// Removing any key keeps the sequence strictly increasing.
pub proof fn lemma_remove(keys: Seq<Seq<u8>>, i: int)
    requires
        0 <= i < keys.len(),
        all_wf(keys),
        strictly_increasing(keys),
    ensures
        all_wf(keys.remove(i)),
        strictly_increasing(keys.remove(i)),
{
    let r = keys.remove(i);
    assert forall|t: int| 0 <= t < r.len() - 1 implies key_lt(#[trigger] r[t], r[t + 1]) by {
        if t + 1 < i {
            assert(r[t] == keys[t] && r[t + 1] == keys[t + 1]);
        } else if t >= i {
            assert(r[t] == keys[t + 1] && r[t + 1] == keys[t + 2]);
        } else {
            assert(r[t] == keys[t] && r[t + 1] == keys[t + 2]);
            lemma_key_lt_transitive(keys[t], keys[t + 1], keys[t + 2]);
        }
    }
    assert forall|t: int| 0 <= t < r.len() implies wf_digits(#[trigger] r[t]) by {
        if t < i {
            assert(r[t] == keys[t]);
        } else {
            assert(r[t] == keys[t + 1]);
        }
    }
}

/// One edit of an ordered sequence of keys.
pub enum Edit {
    /// Insert a key before the first one.
    Front,
    /// Append a key after the last one.
    Back,
    /// Insert a key between the keys at `i` and `i + 1`.
    Between(nat),
    /// Remove the key at `i`.
    Remove(nat),
}

/// The sequence after one edit, with `delta` digits of room for keys made at either end;
/// an edit whose position does not exist leaves the sequence unchanged.
pub open spec fn apply_edit(keys: Seq<Seq<u8>>, edit: Edit, delta: nat) -> Seq<Seq<u8>> {
    match edit {
        Edit::Front => if keys.len() > 0 {
            keys.insert(0, before_digits(keys[0], delta))
        } else {
            keys
        },
        Edit::Back => if keys.len() > 0 {
            keys.push(after_digits(keys.last(), delta))
        } else {
            keys
        },
        Edit::Between(i) => if i + 1 < keys.len() {
            keys.insert((i + 1) as int, between_digits(keys[i as int], keys[(i + 1) as int]))
        } else {
            keys
        },
        Edit::Remove(i) => if i < keys.len() {
            keys.remove(i as int)
        } else {
            keys
        },
    }
}

/// The sequence after a run of edits, first to last.
pub open spec fn apply_edits(keys: Seq<Seq<u8>>, edits: Seq<Edit>, delta: nat) -> Seq<Seq<u8>>
    decreases edits.len(),
{
    if edits.len() == 0 {
        keys
    } else {
        apply_edits(apply_edit(keys, edits[0], delta), edits.drop_first(), delta)
    }
}

/// Any run of insertions at the front, at the back or between neighbours, and of removals,
/// leaves a strictly increasing sequence of well-formed keys strictly increasing.
pub proof fn lemma_edits_keep_order(keys: Seq<Seq<u8>>, edits: Seq<Edit>, delta: nat)
    requires
        all_wf(keys),
        strictly_increasing(keys),
        delta > 0,
    ensures
        all_wf(apply_edits(keys, edits, delta)),
        strictly_increasing(apply_edits(keys, edits, delta)),
    decreases edits.len(),
{
    if edits.len() > 0 {
        let next = apply_edit(keys, edits[0], delta);
        match edits[0] {
            Edit::Front => if keys.len() > 0 {
                lemma_insert_before_head(keys, delta);
            },
            Edit::Back => if keys.len() > 0 {
                lemma_insert_after_tail(keys, delta);
            },
            Edit::Between(i) => if i + 1 < keys.len() {
                lemma_insert_between(keys, i as int);
            },
            Edit::Remove(i) => if i < keys.len() {
                lemma_remove(keys, i as int);
            },
        }
        lemma_edits_keep_order(next, edits.drop_first(), delta);
    }
}

} // verus!
