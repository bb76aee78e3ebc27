//! What holds of the registry over any run of pairings: which tokens are live,
//! and how many installations there are.

use vstd::prelude::*;

use crate::crypto::base64url_bytes;
use crate::state::{
    admitted, lemma_others, lemma_unknown_hash, others, resolved, same_pair, token_digest, Issued,
    RecordView,
};

verus! {

/// The records after a run of admissions, from an empty registry on.
pub open spec fn enrolled(issues: Seq<Issued>) -> Seq<RecordView>
    decreases issues.len(),
{
    if issues.len() == 0 {
        Seq::empty()
    } else {
        admitted(enrolled(issues.drop_last()), issues.last().record())
    }
}

/// Whether every admission's record says what was admitted.
pub open spec fn all_read_back(issues: Seq<Issued>) -> bool {
    forall|i: int| 0 <= i < issues.len() ==> (#[trigger] issues[i]).reads_back()
}

/// Whether an admission still stands: no later one is of the same installation.
pub open spec fn live(issues: Seq<Issued>, i: int) -> bool {
    &&& 0 <= i < issues.len()
    &&& forall|k: int|
        i < k < issues.len() ==> (#[trigger] issues[k]).installation() != issues[i].installation()
}

/// Whether an admission still stands and its token has this hash.
pub open spec fn live_token(issues: Seq<Issued>, i: int, hash: Seq<u8>) -> bool {
    live(issues, i) && token_digest(issues[i].token) == hash
}

/// The admissions of every other installation, in order.
spec fn without(kept: Seq<Issued>, who: (Seq<u8>, Seq<u8>)) -> Seq<Issued>
    decreases kept.len(),
{
    if kept.len() == 0 {
        kept
    } else {
        let front = without(kept.drop_last(), who);
        if kept.last().installation() == who {
            front
        } else {
            front.push(kept.last())
        }
    }
}

/// The admissions that still stand, in order.
spec fn survivors(issues: Seq<Issued>) -> Seq<Issued>
    decreases issues.len(),
{
    if issues.len() == 0 {
        issues
    } else {
        without(survivors(issues.drop_last()), issues.last().installation()).push(issues.last())
    }
}

/// The records of some admissions.
spec fn records_of(kept: Seq<Issued>) -> Seq<RecordView> {
    kept.map_values(|issued: Issued| issued.record())
}

/// Records are of one installation exactly where the admissions are: the texts
/// of different keys differ.
proof fn lemma_same_pair(a: Issued, b: Issued)
    requires
        a.reads_back(),
        b.reads_back(),
    ensures
        same_pair(a.record(), b.record().bridge_key, b.record().device_id) <==> a.installation()
            == b.installation(),
{
}

/// What is kept of some admissions is what they held of other installations.
proof fn lemma_without(kept: Seq<Issued>, who: (Seq<u8>, Seq<u8>))
    ensures
        forall|x: Issued| #[trigger]
            without(kept, who).contains(x) <==> kept.contains(x) && x.installation() != who,
    decreases kept.len(),
{
    if kept.len() > 0 {
        let front = kept.drop_last();
        lemma_without(front, who);
        assert(kept =~= front.push(kept.last()));
        let left = without(front, who);
        assert forall|x: Issued| #[trigger] without(kept, who).contains(x) <==> kept.contains(x)
            && x.installation() != who by {
            lemma_push_contains(front, kept.last(), x);
            lemma_push_contains(left, kept.last(), x);
            assert(left.contains(x) <==> front.contains(x) && x.installation() != who);
        }
    }
}

proof fn lemma_push_contains(s: Seq<Issued>, last: Issued, x: Issued)
    ensures
        s.push(last).contains(x) <==> s.contains(x) || x == last,
{
    if s.contains(x) {
        let k = choose|k: int| 0 <= k < s.len() && s[k] == x;
        assert(s.push(last)[k] == x);
    }
    if x == last {
        assert(s.push(last)[s.len() as int] == x);
    }
    if s.push(last).contains(x) && x != last {
        let k = choose|k: int| 0 <= k < s.push(last).len() && s.push(last)[k] == x;
        assert(s[k] == x);
    }
}

/// Whether no two admissions are of one installation.
spec fn apart(kept: Seq<Issued>) -> bool {
    forall|i: int, k: int|
        0 <= i < k < kept.len() ==> (#[trigger] kept[i]).installation() != (
        #[trigger] kept[k]).installation()
}

proof fn lemma_without_apart(kept: Seq<Issued>, who: (Seq<u8>, Seq<u8>))
    requires
        apart(kept),
    ensures
        apart(without(kept, who)),
    decreases kept.len(),
{
    if kept.len() > 0 {
        let front = kept.drop_last();
        assert(apart(front)) by {
            assert forall|i: int, k: int| 0 <= i < k < front.len() implies (
            #[trigger] front[i]).installation() != (#[trigger] front[k]).installation() by {
                assert(front[i] == kept[i] && front[k] == kept[k]);
            }
        }
        lemma_without_apart(front, who);
        lemma_without(front, who);
        let left = without(front, who);
        let all = without(kept, who);
        assert forall|i: int, k: int| 0 <= i < k < all.len() implies (
        #[trigger] all[i]).installation() != (#[trigger] all[k]).installation() by {
            assert(all[i] == left[i]);
            if k < left.len() {
                assert(all[k] == left[k]);
            } else {
                assert(left.contains(left[i]));
                let at = choose|at: int| 0 <= at < front.len() && front[at] == left[i];
                assert(kept[at] == left[i]);
                assert(kept[kept.len() - 1] == all[k]);
            }
        }
    }
}

/// What survives a run: no two of one installation, and exactly the admissions
/// that still stand.
proof fn lemma_survivors(issues: Seq<Issued>)
    ensures
        apart(survivors(issues)),
        forall|x: Issued| #[trigger]
            survivors(issues).contains(x) <==> exists|i: int| #[trigger] live(issues, i)
                && issues[i] == x,
    decreases issues.len(),
{
    if issues.len() > 0 {
        let front = issues.drop_last();
        let last = issues.last();
        let who = last.installation();
        let n = front.len() as int;
        lemma_survivors(front);
        lemma_without(survivors(front), who);
        lemma_without_apart(survivors(front), who);
        let left = without(survivors(front), who);
        let all = survivors(issues);
        assert(apart(all)) by {
            assert forall|i: int, k: int| 0 <= i < k < all.len() implies (
            #[trigger] all[i]).installation() != (#[trigger] all[k]).installation() by {
                assert(all[i] == left[i]);
                assert(left.contains(left[i]));
                if k < left.len() {
                    assert(all[k] == left[k]);
                }
            }
        }
        assert(issues[n] == last);
        assert(live(issues, n));
        assert forall|x: Issued| #[trigger] all.contains(x) <==> exists|i: int| #[trigger]
            live(issues, i) && issues[i] == x by {
            lemma_push_contains(left, last, x);
            assert(left.contains(x) <==> survivors(front).contains(x) && x.installation() != who);
            if left.contains(x) {
                assert(survivors(front).contains(x));
                let i = choose|i: int| #[trigger] live(front, i) && front[i] == x;
                assert(front[i] == issues[i]);
                assert forall|k: int| i < k < issues.len() implies (
                #[trigger] issues[k]).installation() != issues[i].installation() by {
                    if k < n {
                        assert(front[k] == issues[k]);
                    }
                }
                assert(live(issues, i) && issues[i] == x);
            }
            if exists|i: int| #[trigger] live(issues, i) && issues[i] == x {
                let i = choose|i: int| #[trigger] live(issues, i) && issues[i] == x;
                if i < n {
                    assert(issues[n].installation() != issues[i].installation());
                    assert forall|k: int| i < k < front.len() implies (
                    #[trigger] front[k]).installation() != front[i].installation() by {
                        assert(front[k] == issues[k] && front[i] == issues[i]);
                    }
                    assert(live(front, i) && front[i] == x);
                    assert(survivors(front).contains(x));
                }
            }
        }
    }
}

/// Taking out an installation's records takes out its admissions.
proof fn lemma_others_are_without(kept: Seq<Issued>, next: Issued)
    requires
        all_read_back(kept),
        next.reads_back(),
    ensures
        others(records_of(kept), next.record().bridge_key, next.record().device_id) == records_of(
            without(kept, next.installation()),
        ),
    decreases kept.len(),
{
    let records = records_of(kept);
    if kept.len() > 0 {
        let front = kept.drop_last();
        assert(all_read_back(front)) by {
            assert forall|i: int| 0 <= i < front.len() implies (
            #[trigger] front[i]).reads_back() by {
                assert(front[i] == kept[i]);
            }
        }
        lemma_others_are_without(front, next);
        assert(kept[kept.len() - 1].reads_back());
        lemma_same_pair(kept.last(), next);
        assert(records.drop_last() =~= records_of(front));
        assert(records.last() == kept.last().record());
        let left = without(front, next.installation());
        assert(records_of(left.push(kept.last())) =~= records_of(left).push(
            kept.last().record(),
        ));
    } else {
        assert(records =~= Seq::empty());
        assert(records_of(without(kept, next.installation())) =~= Seq::empty());
    }
}

/// The records after a run are those of the admissions that still stand.
proof fn lemma_enrolled(issues: Seq<Issued>)
    requires
        all_read_back(issues),
    ensures
        enrolled(issues) == records_of(survivors(issues)),
        all_read_back(survivors(issues)),
    decreases issues.len(),
{
    if issues.len() > 0 {
        let front = issues.drop_last();
        assert(all_read_back(front)) by {
            assert forall|i: int| 0 <= i < front.len() implies (
            #[trigger] front[i]).reads_back() by {
                assert(front[i] == issues[i]);
            }
        }
        lemma_enrolled(front);
        assert(issues[issues.len() - 1].reads_back());
        lemma_others_are_without(survivors(front), issues.last());
        let left = without(survivors(front), issues.last().installation());
        assert(records_of(left.push(issues.last())) =~= records_of(left).push(
            issues.last().record(),
        ));
        lemma_survivors(issues);
        let all = survivors(issues);
        assert forall|i: int| 0 <= i < all.len() implies (#[trigger] all[i]).reads_back() by {
            assert(all.contains(all[i]));
            let k = choose|k: int| #[trigger] live(issues, k) && issues[k] == all[i];
            assert(issues[k].reads_back());
        }
    } else {
        assert(enrolled(issues) =~= records_of(survivors(issues)));
    }
}

/// A hash finds the device of an admission with that token, if there is one.
proof fn lemma_resolved(kept: Seq<Issued>, hash: Seq<u8>)
    requires
        all_read_back(kept),
    ensures
        match resolved(records_of(kept), hash) {
            Some(handle) => exists|x: Issued| #[trigger]
                kept.contains(x) && token_digest(x.token) == hash && x.handle() == handle,
            None => forall|x: Issued| #[trigger]
                kept.contains(x) ==> token_digest(x.token) != hash,
        },
    decreases kept.len(),
{
    let records = records_of(kept);
    if kept.len() > 0 {
        let first = kept[0];
        assert(records[0] == first.record());
        assert(first.reads_back());
        assert(kept.contains(first));
        if token_digest(first.token) != hash {
            let rest = kept.skip(1);
            assert(all_read_back(rest)) by {
                assert forall|i: int| 0 <= i < rest.len() implies (
                #[trigger] rest[i]).reads_back() by {
                    assert(rest[i] == kept[i + 1]);
                }
            }
            lemma_resolved(rest, hash);
            assert(records.skip(1) =~= records_of(rest));
            match resolved(records_of(rest), hash) {
                Some(handle) => {
                    let x = choose|x: Issued| #[trigger]
                        rest.contains(x) && token_digest(x.token) == hash && x.handle() == handle;
                    let k = choose|k: int| 0 <= k < rest.len() && rest[k] == x;
                    assert(kept[k + 1] == x);
                    assert(kept.contains(x));
                },
                None => {
                    assert forall|x: Issued| #[trigger] kept.contains(x) implies token_digest(
                        x.token,
                    ) != hash by {
                        let k = choose|k: int| 0 <= k < kept.len() && kept[k] == x;
                        if k > 0 {
                            assert(rest[k - 1] == x);
                            assert(rest.contains(x));
                        }
                    }
                },
            }
        }
    }
}

/// A token is known exactly while it stands: after any run of admissions, a hash
/// resolves if and only if it is that of a token that was issued and that no
/// later admission of the same installation replaced; and then it resolves to
/// the device of such a token.
pub proof fn law_tokens_resolve_until_replaced(issues: Seq<Issued>, hash: Seq<u8>)
    requires
        all_read_back(issues),
    ensures
        resolved(enrolled(issues), hash) is Some <==> exists|i: int| #[trigger]
            live_token(issues, i, hash),
        resolved(enrolled(issues), hash) matches Some(handle) ==> exists|i: int| #[trigger]
            live_token(issues, i, hash) && issues[i].handle() == handle,
{
    let kept = survivors(issues);
    lemma_enrolled(issues);
    lemma_survivors(issues);
    lemma_resolved(kept, hash);
    match resolved(enrolled(issues), hash) {
        Some(handle) => {
            let x = choose|x: Issued| #[trigger]
                kept.contains(x) && token_digest(x.token) == hash && x.handle() == handle;
            let i = choose|i: int| #[trigger] live(issues, i) && issues[i] == x;
            assert(live_token(issues, i, hash) && issues[i].handle() == handle);
        },
        None => {
            assert forall|i: int| !#[trigger] live_token(issues, i, hash) by {
                if live_token(issues, i, hash) {
                    assert(live(issues, i) && issues[i] == issues[i]);
                    assert(kept.contains(issues[i]));
                }
            }
        },
    }
}

/// A token that stands leads to the device it was issued for, as long as no
/// other token that stands has its hash.
pub proof fn law_token_leads_to_its_device(issues: Seq<Issued>, i: int)
    requires
        all_read_back(issues),
        live(issues, i),
        forall|k: int| #[trigger]
            live_token(issues, k, token_digest(issues[i].token)) ==> k == i,
    ensures
        resolved(enrolled(issues), token_digest(issues[i].token)) == Some(issues[i].handle()),
{
    let hash = token_digest(issues[i].token);
    law_tokens_resolve_until_replaced(issues, hash);
    assert(live_token(issues, i, hash));
}

/// The registry counts installations: after any run of admissions it has as many
/// records as there are distinct pairs of a bridge and a device's public key.
pub proof fn law_count_is_that_of_installations(issues: Seq<Issued>)
    requires
        all_read_back(issues),
    ensures
        enrolled(issues).len() == issues.map_values(
            |issued: Issued| issued.installation(),
        ).to_set().len(),
{
    let kept = survivors(issues);
    lemma_enrolled(issues);
    lemma_survivors(issues);
    let all = issues.map_values(|issued: Issued| issued.installation());
    let left = kept.map_values(|issued: Issued| issued.installation());
    assert(left.no_duplicates()) by {
        assert forall|i: int, k: int| 0 <= i < left.len() && 0 <= k < left.len() && i
            != k implies left[i] != left[k] by {
            assert(left[i] == kept[i].installation() && left[k] == kept[k].installation());
        }
    }
    left.unique_seq_to_set();
    assert(left.to_set() =~= all.to_set()) by {
        assert forall|who: (Seq<u8>, Seq<u8>)| left.to_set().contains(who)
            == all.to_set().contains(who) by {
            if left.contains(who) {
                let k = choose|k: int| 0 <= k < left.len() && left[k] == who;
                assert(kept.contains(kept[k]));
                let i = choose|i: int| #[trigger] live(issues, i) && issues[i] == kept[k];
                assert(all[i] == who);
            }
            if all.contains(who) {
                let k = choose|k: int| 0 <= k < all.len() && all[k] == who;
                let i = lemma_last_of(issues, k);
                assert(kept.contains(issues[i]));
                let at = choose|at: int| 0 <= at < kept.len() && kept[at] == issues[i];
                assert(left[at] == who);
            }
        }
    }
}

/// The last admission of an installation stands.
proof fn lemma_last_of(issues: Seq<Issued>, k: int) -> (i: int)
    requires
        0 <= k < issues.len(),
    ensures
        live(issues, i),
        issues[i].installation() == issues[k].installation(),
    decreases issues.len() - k,
{
    if live(issues, k) {
        k
    } else {
        let next = choose|next: int|
            k < next < issues.len() && (#[trigger] issues[next]).installation()
                == issues[k].installation();
        lemma_last_of(issues, next)
    }
}

/// Whether every record's hash can be read.
pub open spec fn readable(records: Seq<RecordView>) -> bool {
    forall|i: int|
        0 <= i < records.len() ==> base64url_bytes((#[trigger] records[i]).token_hash) is Some
}

/// Pairing an installation leaves every other token as it was: a hash that no
/// record of this installation has, and that is not the new token's, resolves to
/// what it resolved to before.
pub proof fn law_re_pairing_leaves_other_tokens(
    records: Seq<RecordView>,
    record: RecordView,
    hash: Seq<u8>,
)
    requires
        readable(records),
        base64url_bytes(record.token_hash) != Some(hash),
        forall|i: int|
            0 <= i < records.len() && same_pair(
                #[trigger] records[i],
                record.bridge_key,
                record.device_id,
            ) ==> base64url_bytes(records[i].token_hash) != Some(hash),
    ensures
        resolved(admitted(records, record), hash) == resolved(records, hash),
{
    let kept = others(records, record.bridge_key, record.device_id);
    lemma_others(records, record.bridge_key, record.device_id);
    assert(readable(kept)) by {
        assert forall|i: int| 0 <= i < kept.len() implies base64url_bytes(
            (#[trigger] kept[i]).token_hash,
        ) is Some by {
            let k = choose|k: int| 0 <= k < records.len() && records[k] == kept[i];
            assert(records[k] == kept[i]);
        }
    }
    lemma_resolved_push(kept, record, hash);
    lemma_resolved_others(records, record, hash);
}

/// A record with another hash, last, changes nothing.
proof fn lemma_resolved_push(records: Seq<RecordView>, last: RecordView, hash: Seq<u8>)
    requires
        readable(records),
        base64url_bytes(last.token_hash) != Some(hash),
    ensures
        resolved(records.push(last), hash) == resolved(records, hash),
    decreases records.len(),
{
    let all = records.push(last);
    if records.len() == 0 {
        lemma_unknown_hash(all, hash);
    } else {
        let rest = records.skip(1);
        assert(all[0] == records[0]);
        assert(all.skip(1) =~= rest.push(last));
        assert(readable(rest)) by {
            assert forall|i: int| 0 <= i < rest.len() implies base64url_bytes(
                (#[trigger] rest[i]).token_hash,
            ) is Some by {
                assert(rest[i] == records[i + 1]);
            }
        }
        lemma_resolved_push(rest, last, hash);
    }
}

/// A record, last, decides only what nothing before it has decided.
proof fn lemma_resolved_last(a: Seq<RecordView>, b: Seq<RecordView>, last: RecordView, hash: Seq<u8>)
    requires
        readable(a),
        readable(b),
        resolved(a, hash) == resolved(b, hash),
        has_hash(a, hash) == has_hash(b, hash),
    ensures
        resolved(a.push(last), hash) == resolved(b.push(last), hash),
{
    lemma_resolved_first(a, last, hash);
    lemma_resolved_first(b, last, hash);
}

/// Whether a record has this hash.
spec fn has_hash(records: Seq<RecordView>, hash: Seq<u8>) -> bool {
    exists|i: int|
        0 <= i < records.len() && base64url_bytes((#[trigger] records[i]).token_hash) == Some(hash)
}

proof fn lemma_resolved_first(records: Seq<RecordView>, last: RecordView, hash: Seq<u8>)
    requires
        readable(records),
    ensures
        resolved(records.push(last), hash) == (if has_hash(records, hash) {
            resolved(records, hash)
        } else {
            resolved(seq![last], hash)
        }),
    decreases records.len(),
{
    let all = records.push(last);
    if records.len() == 0 {
        assert(all =~= seq![last]);
        assert(!has_hash(records, hash));
    } else {
        let rest = records.skip(1);
        assert(all[0] == records[0]);
        assert(all.skip(1) =~= rest.push(last));
        assert(readable(rest)) by {
            assert forall|i: int| 0 <= i < rest.len() implies base64url_bytes(
                (#[trigger] rest[i]).token_hash,
            ) is Some by {
                assert(rest[i] == records[i + 1]);
            }
        }
        lemma_resolved_first(rest, last, hash);
        assert(base64url_bytes(records[0].token_hash) != Some(hash) ==> has_hash(records, hash)
            == has_hash(rest, hash)) by {
            if has_hash(rest, hash) {
                let k = choose|k: int|
                    0 <= k < rest.len() && base64url_bytes((#[trigger] rest[k]).token_hash) == Some(
                        hash,
                    );
                assert(records[k + 1] == rest[k]);
            }
            if has_hash(records, hash) && base64url_bytes(records[0].token_hash) != Some(hash) {
                let k = choose|k: int|
                    0 <= k < records.len() && base64url_bytes((#[trigger] records[k]).token_hash)
                        == Some(hash);
                assert(rest[k - 1] == records[k]);
            }
        }
    }
}

/// Taking out records without a hash changes nothing of what the hash finds.
proof fn lemma_resolved_others(records: Seq<RecordView>, record: RecordView, hash: Seq<u8>)
    requires
        readable(records),
        forall|i: int|
            0 <= i < records.len() && same_pair(
                #[trigger] records[i],
                record.bridge_key,
                record.device_id,
            ) ==> base64url_bytes(records[i].token_hash) != Some(hash),
    ensures
        ({
            let kept = others(records, record.bridge_key, record.device_id);
            &&& readable(kept)
            &&& resolved(kept, hash) == resolved(records, hash)
            &&& has_hash(kept, hash) == has_hash(records, hash)
        }),
    decreases records.len(),
{
    if records.len() > 0 {
        let front = records.drop_last();
        let last = records.last();
        assert forall|i: int| 0 <= i < front.len() implies (#[trigger] front[i]) == records[i] by {}
        assert(records[records.len() - 1] == last);
        assert(records =~= front.push(last));
        lemma_resolved_others(front, record, hash);
        let kept = others(front, record.bridge_key, record.device_id);
        lemma_has_hash_push(front, last, hash);
        if same_pair(last, record.bridge_key, record.device_id) {
            lemma_resolved_push(front, last, hash);
        } else {
            lemma_resolved_last(kept, front, last, hash);
            lemma_has_hash_push(kept, last, hash);
            let all = kept.push(last);
            assert forall|i: int| 0 <= i < all.len() implies base64url_bytes(
                (#[trigger] all[i]).token_hash,
            ) is Some by {
                if i < kept.len() {
                    assert(all[i] == kept[i]);
                }
            }
        }
    }
}

proof fn lemma_has_hash_push(records: Seq<RecordView>, last: RecordView, hash: Seq<u8>)
    ensures
        has_hash(records.push(last), hash) == (has_hash(records, hash) || base64url_bytes(
            last.token_hash,
        ) == Some(hash)),
{
    let all = records.push(last);
    assert(all[records.len() as int] == last);
    if has_hash(records, hash) {
        let k = choose|k: int|
            0 <= k < records.len() && base64url_bytes((#[trigger] records[k]).token_hash) == Some(
                hash,
            );
        assert(all[k] == records[k]);
    }
    if has_hash(all, hash) {
        let k = choose|k: int|
            0 <= k < all.len() && base64url_bytes((#[trigger] all[k]).token_hash) == Some(hash);
        if k < records.len() {
            assert(all[k] == records[k]);
        }
    }
}

/// Whether an installation has a record.
pub open spec fn has_record(records: Seq<RecordView>, record: RecordView) -> bool {
    exists|i: int|
        0 <= i < records.len() && same_pair(
            #[trigger] records[i],
            record.bridge_key,
            record.device_id,
        )
}

/// Pairing the same installation again leaves the count as it was; pairing a new
/// one adds one.
pub proof fn law_re_pairing_keeps_the_count(records: Seq<RecordView>, record: RecordView)
    requires
        forall|i: int, k: int|
            0 <= i < k < records.len() && same_pair(
                #[trigger] records[i],
                record.bridge_key,
                record.device_id,
            ) ==> !same_pair(#[trigger] records[k], record.bridge_key, record.device_id),
    ensures
        has_record(records, record) ==> admitted(records, record).len() == records.len(),
        !has_record(records, record) ==> admitted(records, record).len() == records.len() + 1,
    decreases records.len(),
{
    if records.len() > 0 {
        let front = records.drop_last();
        let last = records.last();
        assert forall|i: int| 0 <= i < front.len() implies (#[trigger] front[i]) == records[i] by {}
        assert(records[records.len() - 1] == last);
        law_re_pairing_keeps_the_count(front, record);
        if has_record(front, record) {
            let i = choose|i: int|
                0 <= i < front.len() && same_pair(
                    #[trigger] front[i],
                    record.bridge_key,
                    record.device_id,
                );
            assert(same_pair(records[i], record.bridge_key, record.device_id));
        } else if has_record(records, record) {
            let i = choose|i: int|
                0 <= i < records.len() && same_pair(
                    #[trigger] records[i],
                    record.bridge_key,
                    record.device_id,
                );
            if i < front.len() {
                assert(same_pair(front[i], record.bridge_key, record.device_id));
            }
        }
    }
}

} // verus!
