use crate::aggregator::{concluded, failures, report_of};
use crate::error::Error;
use crate::handler::{keep_tail, occurrences, request, scan, tail_len};
use vstd::prelude::*;

verus! {

/// The number of replies that a connection owes for the decoded chunks
/// `texts`, starting from `pending`.
pub open spec fn replies(pending: Seq<char>, texts: Seq<Seq<char>>) -> nat
    decreases texts.len(),
{
    if texts.len() == 0 {
        0
    } else {
        let (next, n) = scan(pending, texts[0]);
        n + replies(next, texts.drop_first())
    }
}

/// One inspection when every character received since the last reply is kept.
pub open spec fn scan_unbounded(buffer: Seq<char>, text: Seq<char>) -> (Seq<char>, nat) {
    let all = buffer + text;
    if occurrences(all) > 0 {
        (Seq::empty(), occurrences(all))
    } else {
        (all, 0)
    }
}

/// The number of replies owed for `texts` when every character received since
/// the last reply is kept.
pub open spec fn replies_unbounded(buffer: Seq<char>, texts: Seq<Seq<char>>) -> nat
    decreases texts.len(),
{
    if texts.len() == 0 {
        0
    } else {
        let (next, n) = scan_unbounded(buffer, texts[0]);
        n + replies_unbounded(next, texts.drop_first())
    }
}

/// The decoded chunks one after the other.
pub open spec fn joined(texts: Seq<Seq<char>>) -> Seq<char>
    decreases texts.len(),
{
    if texts.len() == 0 {
        Seq::empty()
    } else {
        texts[0] + joined(texts.drop_first())
    }
}

proof fn lemma_skip_unmatched(s: Seq<char>, k: int)
    requires
        0 <= k <= s.len(),
        forall|i: int| 0 <= i < k && i + 6 <= s.len() ==> #[trigger] s.subrange(i, i + 6)
            != request(),
    ensures
        occurrences(s) == occurrences(s.skip(k)),
    decreases k,
{
    if k == 0 {
        assert(s.skip(0) =~= s);
    } else if s.len() < 6 {
        assert(s.skip(k).len() < 6);
    } else {
        assert(s.take(6) =~= s.subrange(0, 6));
        assert(s.subrange(0int, 0int + 6) != request());
        let t = s.skip(1);
        assert forall|i: int| 0 <= i < k - 1 && i + 6 <= t.len() implies #[trigger] t.subrange(
            i,
            i + 6,
        ) != request() by {
            assert(t.subrange(i, i + 6) =~= s.subrange(i + 1, i + 1 + 6));
        }
        lemma_skip_unmatched(t, k - 1);
        assert(t.skip(k - 1) =~= s.skip(k));
    }
}

proof fn lemma_no_request(s: Seq<char>, i: int)
    requires
        occurrences(s) == 0,
        0 <= i,
        i + 6 <= s.len(),
    ensures
        s.subrange(i, i + 6) != request(),
    decreases i,
{
    assert(s.take(6) =~= s.subrange(0, 6));
    if i > 0 {
        let t = s.skip(1);
        lemma_no_request(t, i - 1);
        assert(t.subrange(i - 1, i + 5) =~= s.subrange(i, i + 6));
    }
}

proof fn lemma_request_counted(s: Seq<char>, i: int)
    requires
        0 <= i,
        i + 6 <= s.len(),
        s.subrange(i, i + 6) == request(),
    ensures
        occurrences(s) > 0,
{
    if occurrences(s) == 0 {
        lemma_no_request(s, i);
    }
}

proof fn lemma_tail_same_count(buffer: Seq<char>, text: Seq<char>)
    requires
        occurrences(buffer) == 0,
    ensures
        occurrences(keep_tail(buffer) + text) == occurrences(buffer + text),
{
    if buffer.len() > tail_len() {
        let off = buffer.len() - tail_len();
        let all = buffer + text;
        assert forall|i: int| 0 <= i < off && i + 6 <= all.len() implies #[trigger] all.subrange(
            i,
            i + 6,
        ) != request() by {
            lemma_no_request(buffer, i);
            assert(all.subrange(i, i + 6) =~= buffer.subrange(i, i + 6));
        }
        lemma_skip_unmatched(all, off);
        assert(all.skip(off) =~= keep_tail(buffer) + text);
    }
}

proof fn lemma_tail_of_tail(buffer: Seq<char>, text: Seq<char>)
    ensures
        keep_tail(keep_tail(buffer) + text) == keep_tail(buffer + text),
{
    assert(keep_tail(keep_tail(buffer) + text) =~= keep_tail(buffer + text));
}

/// Keeping only the end of the pending text that may still begin a request
/// owes the same replies as keeping every character received since the last
/// reply.
pub proof fn lemma_bounded_pending_same_replies(buffer: Seq<char>, texts: Seq<Seq<char>>)
    requires
        occurrences(buffer) == 0,
    ensures
        replies(keep_tail(buffer), texts) == replies_unbounded(buffer, texts),
    decreases texts.len(),
{
    if texts.len() > 0 {
        let t = texts[0];
        lemma_tail_same_count(buffer, t);
        if occurrences(buffer + t) > 0 {
            assert(keep_tail(Seq::<char>::empty()) == Seq::<char>::empty());
            lemma_bounded_pending_same_replies(Seq::empty(), texts.drop_first());
        } else {
            lemma_tail_of_tail(buffer, t);
            lemma_bounded_pending_same_replies(buffer + t, texts.drop_first());
        }
    }
}

proof fn lemma_request_once()
    ensures
        occurrences(request()) == 1,
{
    reveal_with_fuel(occurrences, 2);
    assert(request().take(6) =~= request());
    assert(request().skip(6).len() == 0);
}

/// A fresh connection that receives the request in each of its chunks gets
/// exactly one reply per chunk.
pub proof fn lemma_reply_per_request(texts: Seq<Seq<char>>)
    requires
        forall|i: int| 0 <= i < texts.len() ==> #[trigger] texts[i] == request(),
    ensures
        replies(Seq::empty(), texts) == texts.len(),
    decreases texts.len(),
{
    if texts.len() > 0 {
        lemma_request_once();
        assert(Seq::<char>::empty() + texts[0] =~= request());
        assert(forall|i: int| 0 <= i < texts.drop_first().len()
            ==> #[trigger] texts.drop_first()[i] == texts[i + 1]);
        lemma_reply_per_request(texts.drop_first());
    }
}

proof fn lemma_split_from(m: int, texts: Seq<Seq<char>>)
    requires
        0 <= m < 6,
        joined(texts) == request().skip(m),
        forall|i: int| 0 <= i < texts.len() ==> #[trigger] texts[i].len() > 0,
    ensures
        replies(request().take(m), texts) == 1,
    decreases texts.len(),
{
    if texts.len() == 0 {
        assert(request().skip(m).len() > 0);
    } else {
        let t = texts[0];
        let rest = texts.drop_first();
        let l = t.len() as int;
        assert(forall|i: int| 0 <= i < rest.len() ==> #[trigger] rest[i] == texts[i + 1]);
        assert(t =~= request().skip(m).take(l));
        let all = request().take(m) + t;
        assert(all =~= request().take(m + l));
        assert(joined(texts) == t + joined(rest));
        assert((t + joined(rest)).skip(l) =~= joined(rest));
        assert(joined(rest) =~= request().skip(m + l));
        if m + l == 6 {
            lemma_request_once();
            assert(all =~= request());
            if rest.len() > 0 {
                assert(joined(rest).len() >= rest[0].len());
            }
            assert(rest.len() == 0);
            assert(scan(request().take(m), t) == (Seq::<char>::empty(), 1nat));
            assert(replies(Seq::empty(), rest) == 0);
        } else {
            assert(occurrences(all) == 0);
            assert(keep_tail(all) == all);
            assert(scan(request().take(m), t) == (request().take(m + l), 0nat));
            lemma_split_from(m + l, rest);
        }
    }
}

/// A request split over any number of non-empty chunks gets exactly one
/// reply on a fresh connection.
pub proof fn lemma_split_request(texts: Seq<Seq<char>>)
    requires
        joined(texts) == request(),
        forall|i: int| 0 <= i < texts.len() ==> #[trigger] texts[i].len() > 0,
    ensures
        replies(Seq::empty(), texts) == 1,
{
    assert(request().skip(0) =~= request());
    assert(request().take(0) =~= Seq::<char>::empty());
    lemma_split_from(0, texts);
}

proof fn lemma_answered_unbounded(buffer: Seq<char>, texts: Seq<Seq<char>>)
    requires
        occurrences(buffer) == 0,
        occurrences(buffer + joined(texts)) > 0,
    ensures
        replies_unbounded(buffer, texts) >= 1,
    decreases texts.len(),
{
    if texts.len() == 0 {
        assert(buffer + joined(texts) =~= buffer);
    } else {
        let t = texts[0];
        if occurrences(buffer + t) == 0 {
            assert((buffer + t) + joined(texts.drop_first()) =~= buffer + joined(texts));
            lemma_answered_unbounded(buffer + t, texts.drop_first());
        }
    }
}

/// A fresh connection whose chunks hold a request, however it is split among
/// them, gets at least one reply.
pub proof fn lemma_request_answered(texts: Seq<Seq<char>>)
    requires
        occurrences(joined(texts)) > 0,
    ensures
        replies(Seq::empty(), texts) >= 1,
{
    assert(Seq::<char>::empty() + joined(texts) =~= joined(texts));
    lemma_answered_unbounded(Seq::empty(), texts);
    assert(keep_tail(Seq::<char>::empty()) == Seq::<char>::empty());
    lemma_bounded_pending_same_replies(Seq::empty(), texts);
}

/// Whether a connection's outcome is a failure.
pub open spec fn failed() -> spec_fn(Result<(), Error>) -> bool {
    |o: Result<(), Error>| o is Err
}

/// Of a run of connection outcomes, the aggregate holds one record for each
/// failed connection and none for a clean one: each record is the failure of
/// some connection, each failure is recorded, and the service outcome is a
/// success exactly when no connection failed.
pub proof fn lemma_failures_collected(outcomes: Seq<Result<(), Error>>)
    ensures
        failures(outcomes).len() == outcomes.filter(failed()).len(),
        forall|j: int| 0 <= j < failures(outcomes).len() ==> exists|i: int|
            0 <= i < outcomes.len() && #[trigger] outcomes[i] == Err::<(), Error>(
                #[trigger] failures(outcomes)[j],
            ),
        forall|i: int| 0 <= i < outcomes.len() ==> (#[trigger] outcomes[i] matches Err(e)
            ==> failures(outcomes).contains(e)),
        forall|r: Result<(), Error>| #[trigger] concluded(failures(outcomes), r) ==> (r is Ok
            <==> forall|i: int| 0 <= i < outcomes.len() ==> outcomes[i] is Ok),
    decreases outcomes.len(),
{
    if outcomes.len() > 0 {
        let rest = outcomes.drop_last();
        lemma_failures_collected(rest);
        let fr = failures(rest);
        let f = failures(outcomes);
        assert(forall|i: int| 0 <= i < rest.len() ==> #[trigger] rest[i] == outcomes[i]);
        assert(rest.push(outcomes.last()) =~= outcomes);
        rest.lemma_filter_len_push(failed(), outcomes.last());
        match outcomes.last() {
            Ok(_) => {
                assert(f == fr);
                assert forall|i: int| 0 <= i < outcomes.len() implies (
                #[trigger] outcomes[i] matches Err(e2) ==> f.contains(e2)) by {
                    if i < rest.len() {
                        assert(rest[i] == outcomes[i]);
                    }
                }
                assert forall|j: int| 0 <= j < f.len() implies exists|i: int|
                    0 <= i < outcomes.len() && #[trigger] outcomes[i] == Err::<(), Error>(
                        #[trigger] f[j],
                    ) by {
                    let i = choose|i: int| 0 <= i < rest.len() && #[trigger] rest[i]
                        == Err::<(), Error>(fr[j]);
                    assert(outcomes[i] == rest[i]);
                }
            },
            Err(e) => {
                assert(f == fr.push(e));
                assert(f[f.len() - 1] == e);
                assert forall|j: int| 0 <= j < f.len() implies exists|i: int|
                    0 <= i < outcomes.len() && #[trigger] outcomes[i] == Err::<(), Error>(
                        #[trigger] f[j],
                    ) by {
                    if j < fr.len() {
                        assert(f[j] == fr[j]);
                        let i = choose|i: int| 0 <= i < rest.len() && #[trigger] rest[i]
                            == Err::<(), Error>(fr[j]);
                        assert(outcomes[i] == rest[i]);
                    } else {
                        assert(outcomes[outcomes.len() - 1] == Err::<(), Error>(f[j]));
                    }
                }
                assert forall|i: int| 0 <= i < outcomes.len() implies (
                #[trigger] outcomes[i] matches Err(e2) ==> f.contains(e2)) by {
                    if i < rest.len() {
                        if let Err(e2) = outcomes[i] {
                            assert(rest[i] == outcomes[i]);
                            let k = choose|k: int| 0 <= k < fr.len() && fr[k] == e2;
                            assert(f[k] == e2);
                        }
                    } else {
                        assert(f[f.len() - 1] == e);
                    }
                }
                assert(!(outcomes[outcomes.len() - 1] is Ok));
            },
        }
    }
}

} // verus!
