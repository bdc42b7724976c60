//! Correlation of asynchronous response fragments with a pending request.
//!
//! Every outgoing request carries a fresh numeric `id`; the peer answers with
//! any number of fragments carrying that `id`, and finally one whose `status`
//! list contains `done`.  A `Pending` value accumulates the fragments of one
//! request until that terminal status: output text is concatenated, the last
//! `value` wins, error text is concatenated, and fragments for any other `id`
//! are ignored entirely.
use vstd::prelude::*;

use crate::codec::GPairs;
use crate::codec::GValue;
use crate::codec::Message;
use crate::codec::Value;
use crate::codec::dv_message;

verus! {

broadcast use vstd::std_specs::vec::group_vec_axioms;

/// The `id` key.
pub open spec fn k_id() -> Seq<u8> {
    seq![105u8, 100u8]
}

/// The `out` key.
pub open spec fn k_out() -> Seq<u8> {
    seq![111u8, 117u8, 116u8]
}

/// The `value` key.
pub open spec fn k_value() -> Seq<u8> {
    seq![118u8, 97u8, 108u8, 117u8, 101u8]
}

/// The `err` key.
pub open spec fn k_err() -> Seq<u8> {
    seq![101u8, 114u8, 114u8]
}

/// The `ex` key.
pub open spec fn k_ex() -> Seq<u8> {
    seq![101u8, 120u8]
}

/// The `status` key.
pub open spec fn k_status() -> Seq<u8> {
    seq![115u8, 116u8, 97u8, 116u8, 117u8, 115u8]
}

/// The `done` status word.
pub open spec fn k_done() -> Seq<u8> {
    seq![100u8, 111u8, 110u8, 101u8]
}

/// The `new-session` key.
pub open spec fn k_new_session() -> Seq<u8> {
    seq![110u8, 101u8, 119u8, 45u8, 115u8, 101u8, 115u8, 115u8, 105u8, 111u8, 110u8]
}

/// The value under the first occurrence of `key`, if any.
pub open spec fn msg_get(m: GPairs, key: Seq<u8>) -> Option<GValue>
    decreases m.len(),
{
    if m.len() == 0 {
        None
    } else if m[0].0 == key {
        Some(m[0].1)
    } else {
        msg_get(m.skip(1), key)
    }
}

/// The text under the first occurrence of `key`, if it is there and is text.
pub open spec fn msg_text(m: GPairs, key: Seq<u8>) -> Option<Seq<u8>> {
    match msg_get(m, key) {
        Some(GValue::Text(t)) => Some(t),
        _ => None,
    }
}

/// Whether the fragment's `status` list contains `done`.
pub open spec fn status_has_done(m: GPairs) -> bool {
    match msg_get(m, k_status()) {
        Some(GValue::List(items)) => exists|j: int|
            0 <= j < items.len() && items[j] == GValue::Text(k_done()),
        _ => false,
    }
}

/// In-flight state for one outstanding request `id`.
pub struct Pending {
    pub id: u64,
    pub output: Vec<u8>,
    pub value: Option<Vec<u8>>,
    pub has_error: bool,
    pub error: Vec<u8>,
    pub done: bool,
    pub terminal: Option<Message>,
}

/// The aggregated outcome of one evaluation.
pub struct EvalResult {
    pub output: Vec<u8>,
    pub value: Option<Vec<u8>>,
    pub has_error: bool,
    pub error: Vec<u8>,
}

/// The mathematical model of a `Pending`.
pub struct GPending {
    pub id: int,
    pub output: Seq<u8>,
    pub value: Option<Seq<u8>>,
    pub has_error: bool,
    pub error: Seq<u8>,
    pub done: bool,
}

/// Model of a `Pending`.
pub open spec fn dv_pending(p: Pending) -> GPending {
    GPending {
        id: p.id as int,
        output: p.output@,
        value: match p.value {
            Some(v) => Some(v@),
            None => None,
        },
        has_error: p.has_error,
        error: p.error@,
        done: p.done,
    }
}

/// The fresh correlation state for a new request `id`.
pub open spec fn fresh_pending(id: int) -> GPending {
    GPending {
        id: id,
        output: Seq::empty(),
        value: None,
        has_error: false,
        error: Seq::empty(),
        done: false,
    }
}

/// A `Pending` whose terminal message is held exactly while `done` is set.
pub open spec fn wf_pending(p: Pending) -> bool {
    p.done <==> p.terminal is Some
}

/// What one fragment does to the pending state: nothing at all when its `id`
/// is not the awaited one; otherwise `out` text is appended, a `value`
/// overwrites the held one (the later of several wins), `err` and `ex` text
/// is appended with the error flag set, and a `status` containing `done`
/// makes the state terminal.
pub open spec fn gapply(p: GPending, m: GPairs) -> GPending {
    if msg_get(m, k_id()) != Some(GValue::Int(p.id)) {
        p
    } else {
        let p1 = match msg_text(m, k_out()) {
            Some(t) => GPending { output: p.output + t, ..p },
            None => p,
        };
        let p2 = match msg_text(m, k_value()) {
            Some(v) => GPending { value: Some(v), ..p1 },
            None => p1,
        };
        let p3 = match msg_text(m, k_err()) {
            Some(t) => GPending { has_error: true, error: p2.error + t, ..p2 },
            None => p2,
        };
        let p4 = match msg_text(m, k_ex()) {
            Some(t) => GPending { has_error: true, error: p3.error + t, ..p3 },
            None => p3,
        };
        if status_has_done(m) {
            GPending { done: true, ..p4 }
        } else {
            p4
        }
    }
}

/// A fragment for an unrelated `id` leaves the pending result exactly as it
/// was and raises no error.
pub proof fn lemma_stale_fragment_ignored(p: GPending, m: GPairs)
    requires
        msg_get(m, k_id()) != Some(GValue::Int(p.id)),
    ensures
        gapply(p, m) == p,
{
}

/// How a fragment for the awaited `id` aggregates, field by field.  In
/// particular a `value` entry overwrites whatever value came before it, so
/// of several the later one wins.
pub proof fn lemma_fragment_aggregation(p: GPending, m: GPairs)
    requires
        msg_get(m, k_id()) == Some(GValue::Int(p.id)),
    ensures
        gapply(p, m).id == p.id,
        gapply(p, m).output == (match msg_text(m, k_out()) {
            Some(t) => p.output + t,
            None => p.output,
        }),
        gapply(p, m).value == (match msg_text(m, k_value()) {
            Some(v) => Some(v),
            None => p.value,
        }),
        gapply(p, m).done == (p.done || status_has_done(m)),
        gapply(p, m).has_error == (p.has_error || msg_text(m, k_err()) is Some || msg_text(
            m,
            k_ex(),
        ) is Some),
        gapply(p, m).error == p.error + (match msg_text(m, k_err()) {
            Some(t) => t,
            None => Seq::<u8>::empty(),
        }) + (match msg_text(m, k_ex()) {
            Some(t) => t,
            None => Seq::<u8>::empty(),
        }),
{
    let rhs = p.error + (match msg_text(m, k_err()) {
        Some(t) => t,
        None => Seq::<u8>::empty(),
    }) + (match msg_text(m, k_ex()) {
        Some(t) => t,
        None => Seq::<u8>::empty(),
    });
    assert(gapply(p, m).error =~= rhs);
}

/// Compares two byte strings.
pub fn bytes_eq(a: &[u8], b: &[u8]) -> (r: bool)
    ensures
        r == (a@ == b@),
{
    if a.len() != b.len() {
        proof {
            assert(a@ != b@);
        }
        return false;
    }
    let mut x: usize = 0;
    while x < a.len()
        invariant
            x <= a@.len(),
            a@.len() == b@.len(),
            forall|j: int| 0 <= j < x ==> a@[j] == b@[j],
        decreases a@.len() - x,
    {
        if a[x] != b[x] {
            proof {
                assert(a@[x as int] != b@[x as int]);
            }
            return false;
        }
        x = x + 1;
    }
    proof {
        assert(a@ =~= b@);
    }
    true
}

/// The index of the first pair whose key is `key`, if any; `msg_get` then
/// speaks of exactly that pair.
#[verifier::loop_isolation(false)]
pub fn msg_find_idx(m: &Message, key: &[u8]) -> (r: Option<usize>)
    ensures
        (match r {
            Some(j) => j < m.pairs@.len() && msg_get(dv_message(*m), key@) == Some(
                dv_message(*m)[j as int].1,
            ) && dv_message(*m)[j as int] == (m.pairs@[j as int].0@, crate::codec::dv_value(
                m.pairs@[j as int].1,
            )),
            None => msg_get(dv_message(*m), key@) is None,
        }),
{
    let ghost g = dv_message(*m);
    proof {
        crate::codec::lemma_dv_pairs_all(m.pairs@);
        assert(g.skip(0) =~= g);
    }
    let mut x: usize = 0;
    while x < m.pairs.len()
        invariant
            x <= m.pairs@.len(),
            msg_get(g, key@) == msg_get(g.skip(x as int), key@),
        decreases m.pairs@.len() - x,
    {
        if bytes_eq(m.pairs[x].0.as_slice(), key) {
            proof {
                assert(g.skip(x as int)[0] == g[x as int]);
                assert(g[x as int].0 == key@);
            }
            return Some(x);
        }
        proof {
            assert(g.skip(x as int)[0] == g[x as int]);
            assert(g[x as int].0 != key@);
            assert(g.skip(x as int).skip(1) =~= g.skip(x as int + 1));
        }
        x = x + 1;
    }
    proof {
        assert(g.skip(x as int).len() == 0);
    }
    None
}

/// Applies one decoded fragment to the pending state, exactly as `gapply`
/// says.  The fragment that makes the state terminal is kept as the terminal
/// message; a fragment for another `id` changes nothing.
#[verifier::loop_isolation(false)]
pub fn apply_fragment(p: &mut Pending, m: Message)
    requires
        !old(p).done,
        wf_pending(*old(p)),
    ensures
        dv_pending(*final(p)) == gapply(dv_pending(*old(p)), dv_message(m)),
        final(p).id == old(p).id,
        final(p).terminal == (if gapply(dv_pending(*old(p)), dv_message(m)).done {
            Some(m)
        } else {
            old(p).terminal
        }),
        wf_pending(*final(p)),
{
    let ghost g = dv_message(m);
    let ghost gp0 = dv_pending(*old(p));
    let key_id: [u8; 2] = [105u8, 100u8];
    proof {
        assert(key_id@ =~= k_id());
    }
    let mut id_matches: bool = false;
    match msg_find_idx(&m, key_id.as_slice()) {
        Some(j) => {
            match &m.pairs[j].1 {
                Value::Int(n) => {
                    if *n >= 0 && (*n as u64) == p.id {
                        id_matches = true;
                    }
                },
                _ => {},
            }
        },
        None => {},
    }
    if !id_matches {
        proof {
            assert(msg_get(g, k_id()) != Some(GValue::Int(gp0.id)));
            assert(gapply(gp0, g) == gp0);
        }
        return ;
    }
    proof {
        assert(msg_get(g, k_id()) == Some(GValue::Int(gp0.id)));
    }
    let key_out: [u8; 3] = [111u8, 117u8, 116u8];
    proof {
        assert(key_out@ =~= k_out());
    }
    match msg_find_idx(&m, key_out.as_slice()) {
        Some(j) => {
            match &m.pairs[j].1 {
                Value::Text(t) => {
                    crate::codec::push_bytes(t.as_slice(), &mut p.output);
                },
                _ => {},
            }
        },
        None => {},
    }
    let ghost gp1 = (match msg_text(g, k_out()) {
        Some(t) => GPending { output: gp0.output + t, ..gp0 },
        None => gp0,
    });
    proof {
        assert(dv_pending(*p) == gp1);
    }
    let key_value: [u8; 5] = [118u8, 97u8, 108u8, 117u8, 101u8];
    proof {
        assert(key_value@ =~= k_value());
    }
    match msg_find_idx(&m, key_value.as_slice()) {
        Some(j) => {
            match &m.pairs[j].1 {
                Value::Text(t) => {
                    let mut nv: Vec<u8> = Vec::new();
                    crate::codec::push_bytes(t.as_slice(), &mut nv);
                    p.value = Some(nv);
                },
                _ => {},
            }
        },
        None => {},
    }
    let ghost gp2 = (match msg_text(g, k_value()) {
        Some(v) => GPending { value: Some(v), ..gp1 },
        None => gp1,
    });
    proof {
        assert(dv_pending(*p) == gp2);
    }
    let key_err: [u8; 3] = [101u8, 114u8, 114u8];
    proof {
        assert(key_err@ =~= k_err());
    }
    match msg_find_idx(&m, key_err.as_slice()) {
        Some(j) => {
            match &m.pairs[j].1 {
                Value::Text(t) => {
                    crate::codec::push_bytes(t.as_slice(), &mut p.error);
                    p.has_error = true;
                },
                _ => {},
            }
        },
        None => {},
    }
    let ghost gp3 = (match msg_text(g, k_err()) {
        Some(t) => GPending { has_error: true, error: gp2.error + t, ..gp2 },
        None => gp2,
    });
    proof {
        assert(dv_pending(*p) == gp3);
    }
    let key_ex: [u8; 2] = [101u8, 120u8];
    proof {
        assert(key_ex@ =~= k_ex());
    }
    match msg_find_idx(&m, key_ex.as_slice()) {
        Some(j) => {
            match &m.pairs[j].1 {
                Value::Text(t) => {
                    crate::codec::push_bytes(t.as_slice(), &mut p.error);
                    p.has_error = true;
                },
                _ => {},
            }
        },
        None => {},
    }
    let ghost gp4 = (match msg_text(g, k_ex()) {
        Some(t) => GPending { has_error: true, error: gp3.error + t, ..gp3 },
        None => gp3,
    });
    proof {
        assert(dv_pending(*p) == gp4);
    }
    let key_status: [u8; 6] = [115u8, 116u8, 97u8, 116u8, 117u8, 115u8];
    let done_word: [u8; 4] = [100u8, 111u8, 110u8, 101u8];
    proof {
        assert(key_status@ =~= k_status());
        assert(done_word@ =~= k_done());
    }
    let mut saw_done: bool = false;
    match msg_find_idx(&m, key_status.as_slice()) {
        Some(j) => {
            match &m.pairs[j].1 {
                Value::List(items) => {
                    let ghost gitems = crate::codec::dv_items(items@, 0);
                    proof {
                        crate::codec::lemma_dv_items_all(items@);
                    }
                    let mut x: usize = 0;
                    while x < items.len()
                        invariant
                            x <= items@.len(),
                            gitems == crate::codec::dv_items(items@, 0),
                            gitems.len() == items@.len(),
                            forall|y: int|
                                0 <= y < items@.len() ==> #[trigger] gitems[y]
                                    == crate::codec::dv_value(items@[y]),
                            !saw_done ==> forall|y: int|
                                0 <= y < x ==> gitems[y] != GValue::Text(k_done()),
                            saw_done ==> exists|y: int|
                                0 <= y < gitems.len() && gitems[y] == GValue::Text(k_done()),
                        decreases items@.len() - x,
                    {
                        match &items[x] {
                            Value::Text(t) => {
                                if bytes_eq(t.as_slice(), done_word.as_slice()) {
                                    proof {
                                        assert(gitems[x as int] == GValue::Text(k_done()));
                                    }
                                    saw_done = true;
                                }
                            },
                            _ => {},
                        }
                        x = x + 1;
                    }
                    proof {
                        if !saw_done {
                            assert(forall|y: int|
                                0 <= y < gitems.len() ==> gitems[y] != GValue::Text(k_done()));
                        }
                        assert(saw_done == status_has_done(g));
                    }
                },
                _ => {},
            }
        },
        None => {},
    }
    proof {
        assert(saw_done == status_has_done(g));
    }
    if saw_done {
        p.done = true;
        p.terminal = Some(m);
    }
    proof {
        assert(dv_pending(*p) == gapply(gp0, g));
    }
}

/// Moves the aggregated fields of a terminal pending state into the result
/// handed to the caller.
pub fn finish_eval(p: Pending) -> (r: EvalResult)
    requires
        p.done,
    ensures
        r.output == p.output,
        r.value == p.value,
        r.has_error == p.has_error,
        r.error == p.error,
{
    EvalResult { output: p.output, value: p.value, has_error: p.has_error, error: p.error }
}

} // verus!
