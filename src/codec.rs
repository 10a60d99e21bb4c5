use vstd::prelude::*;

use crate::messages::{
    AcceptDecide, AcceptStopSign, AcceptSync, Accepted, AcceptedStopSign, Ballot, BLEMessage,
    Compaction, Decide, DecideStopSign, FirstAccept, HeartbeatMsg, HeartbeatReply,
    HeartbeatRequest, Message, PaxosMessage, PaxosMsg, Prepare, Promise, SnapshotType, StopSign,
};
use crate::wire::{
    first_frame, frame, framed, le_bytes, le_value, lemma_frame_round_trip, lemma_le_bytes_of_value,
    lemma_le_round_trip, parse_frame,
};

verus! {

/// `e` stands in `buf` at `pos`.
pub open spec fn at(buf: Seq<u8>, pos: int, e: Seq<u8>) -> bool {
    0 <= pos && pos + e.len() <= buf.len() && buf.subrange(pos, pos + e.len()) == e
}

/// The bytes of each item of a list of byte strings.
pub open spec fn views(v: Seq<Vec<u8>>) -> Seq<Seq<u8>> {
    v.map_values(|b: Vec<u8>| b@)
}

/// A byte string: its length, then its bytes.
pub open spec fn enc_bytes(b: Seq<u8>) -> Seq<u8> {
    le_bytes(b.len() as u64) + b
}

/// The byte strings of a list, one after the other.
pub open spec fn enc_items(items: Seq<Seq<u8>>) -> Seq<u8>
    decreases items.len(),
{
    if items.len() == 0 {
        Seq::empty()
    } else {
        enc_items(items.drop_last()) + enc_bytes(items.last())
    }
}

/// A list of byte strings: its count, then the items.
pub open spec fn enc_list(items: Seq<Seq<u8>>) -> Seq<u8> {
    le_bytes(items.len() as u64) + enc_items(items)
}

/// Node ids, one after the other.
pub open spec fn enc_id_items(ids: Seq<u64>) -> Seq<u8>
    decreases ids.len(),
{
    if ids.len() == 0 {
        Seq::empty()
    } else {
        enc_id_items(ids.drop_last()) + le_bytes(ids.last())
    }
}

/// A list of node ids: its count, then the ids.
pub open spec fn enc_ids(ids: Seq<u64>) -> Seq<u8> {
    le_bytes(ids.len() as u64) + enc_id_items(ids)
}

pub proof fn lemma_at_split(buf: Seq<u8>, pos: int, a: Seq<u8>, b: Seq<u8>)
    requires
        at(buf, pos, a + b),
    ensures
        at(buf, pos, a),
        at(buf, pos + a.len(), b),
{
    let whole = buf.subrange(pos, pos + a.len() + b.len());
    assert(whole == a + b);
    assert(buf.subrange(pos, pos + a.len()) =~= whole.subrange(0, a.len() as int));
    assert(whole.subrange(0, a.len() as int) =~= a);
    assert(buf.subrange(pos + a.len(), pos + a.len() + b.len()) =~= whole.subrange(
        a.len() as int,
        whole.len() as int,
    ));
    assert(whole.subrange(a.len() as int, whole.len() as int) =~= b);
}

pub proof fn lemma_at_join(buf: Seq<u8>, pos: int, a: Seq<u8>, b: Seq<u8>)
    requires
        at(buf, pos, a),
        at(buf, pos + a.len(), b),
    ensures
        at(buf, pos, a + b),
{
    assert(buf.subrange(pos, pos + a.len() + b.len()) =~= buf.subrange(pos, pos + a.len()) + buf.subrange(
        pos + a.len(),
        pos + a.len() + b.len(),
    ));
}

proof fn lemma_items_append(a: Seq<Seq<u8>>, b: Seq<Seq<u8>>)
    ensures
        enc_items(a + b) == enc_items(a) + enc_items(b),
    decreases b.len(),
{
    if b.len() == 0 {
        assert(a + b =~= a);
        assert(enc_items(a) + enc_items(b) =~= enc_items(a));
    } else {
        lemma_items_append(a, b.drop_last());
        assert((a + b).drop_last() =~= a + b.drop_last());
        assert(enc_items(a) + enc_items(b) =~= enc_items(a) + enc_items(b.drop_last()) + enc_bytes(
            b.last(),
        ));
    }
}

proof fn lemma_id_items_append(a: Seq<u64>, b: Seq<u64>)
    ensures
        enc_id_items(a + b) == enc_id_items(a) + enc_id_items(b),
    decreases b.len(),
{
    if b.len() == 0 {
        assert(a + b =~= a);
        assert(enc_id_items(a) + enc_id_items(b) =~= enc_id_items(a));
    } else {
        lemma_id_items_append(a, b.drop_last());
        assert((a + b).drop_last() =~= a + b.drop_last());
        assert(enc_id_items(a) + enc_id_items(b) =~= enc_id_items(a) + enc_id_items(b.drop_last())
            + le_bytes(b.last()));
    }
}

/// Appends the bytes of `x`.
fn write_u64(out: &mut Vec<u8>, x: u64)
    ensures
        final(out)@ == old(out)@ + le_bytes(x),
{
    out.push(x as u8);
    out.push((x >> 8u64) as u8);
    out.push((x >> 16u64) as u8);
    out.push((x >> 24u64) as u8);
    out.push((x >> 32u64) as u8);
    out.push((x >> 40u64) as u8);
    out.push((x >> 48u64) as u8);
    out.push((x >> 56u64) as u8);
    assert(out@ =~= old(out)@ + le_bytes(x));
}

/// Reads the number that starts at `pos`.
fn read_u64(buf: &Vec<u8>, pos: usize) -> (r: Option<(u64, usize)>)
    ensures
        forall|x: u64| #[trigger] at(buf@, pos as int, le_bytes(x)) ==> r == Some((x, (pos + 8) as usize)),
        r matches Some((_, end)) ==> end == pos + 8 && end <= buf@.len(),
        r matches Some((v, _)) ==> at(buf@, pos as int, le_bytes(v)),
{
    if pos > buf.len() || buf.len() - pos < 8 {
        return None;
    }
    let v: u64 = (buf[pos] as u64) | ((buf[pos + 1] as u64) << 8u64) | ((buf[pos + 2] as u64)
        << 16u64) | ((buf[pos + 3] as u64) << 24u64) | ((buf[pos + 4] as u64) << 32u64) | ((buf[pos
        + 5] as u64) << 40u64) | ((buf[pos + 6] as u64) << 48u64) | ((buf[pos + 7] as u64)
        << 56u64);
    proof {
        let s = buf@.subrange(pos as int, pos + 8);
        assert(v == le_value(s));
        lemma_le_bytes_of_value(s);
        assert forall|x: u64| #[trigger] at(buf@, pos as int, le_bytes(x)) implies v == x by {
            lemma_le_round_trip(x);
        }
    }
    Some((v, pos + 8))
}

/// Appends `b` as a byte string.
fn write_bytes(out: &mut Vec<u8>, b: &Vec<u8>)
    ensures
        final(out)@ == old(out)@ + enc_bytes(b@),
{
    write_u64(out, b.len() as u64);
    let ghost start = out@;
    let mut i: usize = 0;
    while i < b.len()
        invariant
            i <= b@.len(),
            out@ == start + b@.take(i as int),
        decreases b@.len() - i,
    {
        out.push(b[i]);
        i += 1;
        assert(out@ =~= start + b@.take(i as int));
    }
    assert(b@.take(i as int) =~= b@);
    assert(out@ =~= old(out)@ + enc_bytes(b@));
}

/// Reads the byte string that starts at `pos`.
fn read_bytes(buf: &Vec<u8>, pos: usize) -> (r: Option<(Vec<u8>, usize)>)
    ensures
        forall|b: Seq<u8>| #[trigger] at(buf@, pos as int, enc_bytes(b)) ==> (r matches Some((v, end))
            && v@ == b && end == pos + enc_bytes(b).len()),
        r matches Some((_, end)) ==> pos <= end <= buf@.len(),
        r matches Some((v, end)) ==> at(buf@, pos as int, enc_bytes(v@)) && end == pos + enc_bytes(v@).len(),
{
    let (n, start) = match read_u64(buf, pos) {
        Some(p) => p,
        None => {
            proof {
                assert forall|b: Seq<u8>| #[trigger] at(buf@, pos as int, enc_bytes(b)) implies false by {
                    lemma_at_split(buf@, pos as int, le_bytes(b.len() as u64), b);
                }
            }
            return None;
        },
    };
    if n > (buf.len() - start) as u64 {
        proof {
            assert forall|b: Seq<u8>| #[trigger] at(buf@, pos as int, enc_bytes(b)) implies false by {
                lemma_at_split(buf@, pos as int, le_bytes(b.len() as u64), b);
            }
        }
        return None;
    }
    let end = start + n as usize;
    let mut v: Vec<u8> = Vec::new();
    let mut i: usize = start;
    while i < end
        invariant
            start <= i <= end,
            end <= buf@.len(),
            v@ == buf@.subrange(start as int, i as int),
        decreases end - i,
    {
        v.push(buf[i]);
        i += 1;
        assert(v@ =~= buf@.subrange(start as int, i as int));
    }
    proof {
        assert forall|b: Seq<u8>| #[trigger] at(buf@, pos as int, enc_bytes(b)) implies v@ == b && end
            == pos + enc_bytes(b).len() by {
            lemma_at_split(buf@, pos as int, le_bytes(b.len() as u64), b);
            assert(n == b.len());
        }
        assert(v@.len() == n);
        lemma_at_join(buf@, pos as int, le_bytes(n), v@);
    }
    Some((v, end))
}

proof fn lemma_items_len(items: Seq<Seq<u8>>)
    ensures
        enc_items(items).len() >= 8 * items.len(),
    decreases items.len(),
{
    if items.len() > 0 {
        lemma_items_len(items.drop_last());
    }
}

proof fn lemma_id_items_len(ids: Seq<u64>)
    ensures
        enc_id_items(ids).len() == 8 * ids.len(),
    decreases ids.len(),
{
    if ids.len() > 0 {
        lemma_id_items_len(ids.drop_last());
    }
}

proof fn lemma_item_at(buf: Seq<u8>, start: int, items: Seq<Seq<u8>>, i: int)
    requires
        at(buf, start, enc_items(items)),
        0 <= i < items.len(),
    ensures
        at(buf, start + enc_items(items.take(i)).len(), enc_bytes(items[i])),
        items.take(i + 1).drop_last() == items.take(i),
        enc_items(items.take(i + 1)) == enc_items(items.take(i)) + enc_bytes(items[i]),
{
    assert(items =~= items.take(i + 1) + items.skip(i + 1));
    lemma_items_append(items.take(i + 1), items.skip(i + 1));
    assert(items.take(i + 1).drop_last() =~= items.take(i));
    assert(items.take(i + 1).last() == items[i]);
    lemma_at_split(buf, start, enc_items(items.take(i + 1)), enc_items(items.skip(i + 1)));
    lemma_at_split(buf, start, enc_items(items.take(i)), enc_bytes(items[i]));
}

proof fn lemma_id_at(buf: Seq<u8>, start: int, ids: Seq<u64>, i: int)
    requires
        at(buf, start, enc_id_items(ids)),
        0 <= i < ids.len(),
    ensures
        at(buf, start + enc_id_items(ids.take(i)).len(), le_bytes(ids[i])),
        ids.take(i + 1).drop_last() == ids.take(i),
        enc_id_items(ids.take(i + 1)) == enc_id_items(ids.take(i)) + le_bytes(ids[i]),
{
    assert(ids =~= ids.take(i + 1) + ids.skip(i + 1));
    lemma_id_items_append(ids.take(i + 1), ids.skip(i + 1));
    assert(ids.take(i + 1).drop_last() =~= ids.take(i));
    assert(ids.take(i + 1).last() == ids[i]);
    lemma_at_split(buf, start, enc_id_items(ids.take(i + 1)), enc_id_items(ids.skip(i + 1)));
    lemma_at_split(buf, start, enc_id_items(ids.take(i)), le_bytes(ids[i]));
}

/// Appends a list of byte strings.
fn write_list(out: &mut Vec<u8>, items: &Vec<Vec<u8>>)
    ensures
        final(out)@ == old(out)@ + enc_list(views(items@)),
{
    write_u64(out, items.len() as u64);
    let ghost start = out@;
    let mut i: usize = 0;
    while i < items.len()
        invariant
            i <= items@.len(),
            out@ == start + enc_items(views(items@).take(i as int)),
        decreases items@.len() - i,
    {
        write_bytes(out, &items[i]);
        proof {
            let vs = views(items@);
            assert(vs.take(i + 1).drop_last() =~= vs.take(i as int));
            assert(vs.take(i + 1).last() == items@[i as int]@);
        }
        i += 1;
        assert(out@ =~= start + enc_items(views(items@).take(i as int)));
    }
    assert(views(items@).take(i as int) =~= views(items@));
    assert(out@ =~= old(out)@ + enc_list(views(items@)));
}

/// Reads the list of byte strings that starts at `pos`.
fn read_list(buf: &Vec<u8>, pos: usize) -> (r: Option<(Vec<Vec<u8>>, usize)>)
    ensures
        forall|items: Seq<Seq<u8>>| #[trigger] at(buf@, pos as int, enc_list(items)) ==> (
        r matches Some((v, end)) && views(v@) == items && end == pos + enc_list(items).len()),
        r matches Some((_, end)) ==> pos <= end <= buf@.len(),
        r matches Some((v, end)) ==> at(buf@, pos as int, enc_list(views(v@))) && end == pos + enc_list(
            views(v@),
        ).len(),
{
    let (n, start) = match read_u64(buf, pos) {
        Some(p) => p,
        None => {
            proof {
                assert forall|items: Seq<Seq<u8>>| #[trigger] at(buf@, pos as int, enc_list(items)) implies false by {
                    lemma_at_split(buf@, pos as int, le_bytes(items.len() as u64), enc_items(items));
                }
            }
            return None;
        },
    };
    proof {
        assert forall|items: Seq<Seq<u8>>| #[trigger] at(buf@, pos as int, enc_list(items)) implies items.len()
            == n && at(buf@, start as int, enc_items(items)) by {
            lemma_at_split(buf@, pos as int, le_bytes(items.len() as u64), enc_items(items));
            lemma_items_len(items);
            assert(buf@.len() == buf.len());
            assert(items.len() <= u64::MAX);
            assert(n == items.len() as u64);
        }
    }
    let mut v: Vec<Vec<u8>> = Vec::new();
    let mut cur: usize = start;
    proof {
        assert(views(v@).len() == 0);
        assert(enc_items(views(v@)) == Seq::<u8>::empty());
        assert(buf@.subrange(start as int, start as int) =~= Seq::<u8>::empty());
    }
    let mut i: u64 = 0;
    while i < n
        invariant
            start == pos + 8,
            start <= cur <= buf@.len(),
            i <= n,
            v@.len() == i,
            at(buf@, start as int, enc_items(views(v@))),
            cur == start + enc_items(views(v@)).len(),
            forall|items: Seq<Seq<u8>>| #[trigger] at(buf@, pos as int, enc_list(items)) ==> items.len()
                == n && at(buf@, start as int, enc_items(items)),
            forall|items: Seq<Seq<u8>>| #[trigger] at(buf@, pos as int, enc_list(items)) ==> views(v@)
                == items.take(i as int) && cur == start + enc_items(items.take(i as int)).len(),
        decreases n - i,
    {
        match read_bytes(buf, cur) {
            Some((b, next)) => {
                let ghost before = v@;
                v.push(b);
                proof {
                    lemma_at_join(buf@, start as int, enc_items(views(before)), enc_bytes(v@.last()@));
                    assert(views(v@).drop_last() =~= views(before));
                    assert(enc_items(views(v@)) == enc_items(views(before)) + enc_bytes(v@.last()@));
                    assert forall|items: Seq<Seq<u8>>| #[trigger] at(buf@, pos as int, enc_list(items)) implies views(v@)
                        == items.take(i + 1) && next == start + enc_items(items.take(i + 1)).len() by {
                        lemma_item_at(buf@, start as int, items, i as int);
                        assert(views(before) == items.take(i as int));
                        assert(views(v@) =~= items.take(i + 1));
                    }
                }
                cur = next;
                i += 1;
            },
            None => {
                proof {
                    assert forall|items: Seq<Seq<u8>>| #[trigger] at(buf@, pos as int, enc_list(items)) implies false by {
                        lemma_item_at(buf@, start as int, items, i as int);
                    }
                }
                return None;
            },
        }
    }
    proof {
        assert forall|items: Seq<Seq<u8>>| #[trigger] at(buf@, pos as int, enc_list(items)) implies views(v@)
            == items && cur == pos + enc_list(items).len() by {
            assert(items.take(i as int) =~= items);
        }
        lemma_at_join(buf@, pos as int, le_bytes(n), enc_items(views(v@)));
    }
    Some((v, cur))
}

/// Appends a list of node ids.
fn write_ids(out: &mut Vec<u8>, ids: &Vec<u64>)
    ensures
        final(out)@ == old(out)@ + enc_ids(ids@),
{
    write_u64(out, ids.len() as u64);
    let ghost start = out@;
    let mut i: usize = 0;
    while i < ids.len()
        invariant
            i <= ids@.len(),
            out@ == start + enc_id_items(ids@.take(i as int)),
        decreases ids@.len() - i,
    {
        write_u64(out, ids[i]);
        proof {
            assert(ids@.take(i + 1).drop_last() =~= ids@.take(i as int));
        }
        i += 1;
        assert(out@ =~= start + enc_id_items(ids@.take(i as int)));
    }
    assert(ids@.take(i as int) =~= ids@);
    assert(out@ =~= old(out)@ + enc_ids(ids@));
}

/// Reads the list of node ids that starts at `pos`.
fn read_ids(buf: &Vec<u8>, pos: usize) -> (r: Option<(Vec<u64>, usize)>)
    ensures
        forall|ids: Seq<u64>| #[trigger] at(buf@, pos as int, enc_ids(ids)) ==> (r matches Some((
            v,
            end,
        )) && v@ == ids && end == pos + enc_ids(ids).len()),
        r matches Some((_, end)) ==> pos <= end <= buf@.len(),
        r matches Some((v, end)) ==> at(buf@, pos as int, enc_ids(v@)) && end == pos + enc_ids(v@).len(),
{
    let (n, start) = match read_u64(buf, pos) {
        Some(p) => p,
        None => {
            proof {
                assert forall|ids: Seq<u64>| #[trigger] at(buf@, pos as int, enc_ids(ids)) implies false by {
                    lemma_at_split(buf@, pos as int, le_bytes(ids.len() as u64), enc_id_items(ids));
                }
            }
            return None;
        },
    };
    proof {
        assert forall|ids: Seq<u64>| #[trigger] at(buf@, pos as int, enc_ids(ids)) implies ids.len() == n
            && at(buf@, start as int, enc_id_items(ids)) by {
            lemma_at_split(buf@, pos as int, le_bytes(ids.len() as u64), enc_id_items(ids));
            lemma_id_items_len(ids);
            assert(buf@.len() == buf.len());
            assert(ids.len() <= u64::MAX);
            assert(n == ids.len() as u64);
        }
    }
    let mut v: Vec<u64> = Vec::new();
    let mut cur: usize = start;
    proof {
        assert(enc_id_items(v@) == Seq::<u8>::empty());
        assert(buf@.subrange(start as int, start as int) =~= Seq::<u8>::empty());
    }
    let mut i: u64 = 0;
    while i < n
        invariant
            start == pos + 8,
            start <= cur <= buf@.len(),
            i <= n,
            v@.len() == i,
            at(buf@, start as int, enc_id_items(v@)),
            cur == start + enc_id_items(v@).len(),
            forall|ids: Seq<u64>| #[trigger] at(buf@, pos as int, enc_ids(ids)) ==> ids.len() == n
                && at(buf@, start as int, enc_id_items(ids)),
            forall|ids: Seq<u64>| #[trigger] at(buf@, pos as int, enc_ids(ids)) ==> v@ == ids.take(
                i as int,
            ) && cur == start + enc_id_items(ids.take(i as int)).len(),
        decreases n - i,
    {
        match read_u64(buf, cur) {
            Some((x, next)) => {
                let ghost before = v@;
                v.push(x);
                proof {
                    lemma_at_join(buf@, start as int, enc_id_items(before), le_bytes(x));
                    assert(v@.drop_last() =~= before);
                    assert forall|ids: Seq<u64>| #[trigger] at(buf@, pos as int, enc_ids(ids)) implies v@ == ids.take(
                        i + 1,
                    ) && next == start + enc_id_items(ids.take(i + 1)).len() by {
                        lemma_id_at(buf@, start as int, ids, i as int);
                        assert(v@ =~= ids.take(i + 1));
                    }
                }
                cur = next;
                i += 1;
            },
            None => {
                proof {
                    assert forall|ids: Seq<u64>| #[trigger] at(buf@, pos as int, enc_ids(ids)) implies false by {
                        lemma_id_at(buf@, start as int, ids, i as int);
                    }
                }
                return None;
            },
        }
    }
    proof {
        assert forall|ids: Seq<u64>| #[trigger] at(buf@, pos as int, enc_ids(ids)) implies v@ == ids && cur
            == pos + enc_ids(ids).len() by {
            assert(ids.take(i as int) =~= ids);
        }
        lemma_at_join(buf@, pos as int, le_bytes(n), enc_id_items(v@));
    }
    Some((v, cur))
}

/// A ballot: its round, then its proposer.
pub open spec fn enc_ballot(b: Ballot) -> Seq<u8> {
    le_bytes(b.n as u64) + le_bytes(b.pid)
}

pub proof fn lemma_ballot_parts(buf: Seq<u8>, pos: int, b: Ballot)
    requires
        at(buf, pos, enc_ballot(b)),
    ensures
        at(buf, pos, le_bytes(b.n as u64)),
        at(buf, pos + 8, le_bytes(b.pid)),
{
    lemma_at_split(buf, pos, le_bytes(b.n as u64), le_bytes(b.pid));
}

fn write_ballot(out: &mut Vec<u8>, b: Ballot)
    ensures
        final(out)@ == old(out)@ + enc_ballot(b),
{
    write_u64(out, b.n as u64);
    write_u64(out, b.pid);
    assert(out@ =~= old(out)@ + enc_ballot(b));
}

fn read_ballot(buf: &Vec<u8>, pos: usize) -> (r: Option<(Ballot, usize)>)
    ensures
        forall|b: Ballot| #[trigger] at(buf@, pos as int, enc_ballot(b)) ==> r == Some((b, (pos + 16) as usize)),
        r matches Some((_, end)) ==> end == pos + 16 && end <= buf@.len(),
        r matches Some((v, _)) ==> at(buf@, pos as int, enc_ballot(v)),
{
    proof {
        assert forall|b: Ballot| #[trigger] at(buf@, pos as int, enc_ballot(b)) implies at(buf@, pos as int, le_bytes(b.n as u64)) && at(buf@, pos + 8, le_bytes(b.pid)) by {
            lemma_ballot_parts(buf@, pos as int, b);
        }
    }
    let (n, p1) = match read_u64(buf, pos) {
        Some(t) => t,
        None => return None,
    };
    if n > u32::MAX as u64 {
        return None;
    }
    let (pid, p2) = match read_u64(buf, p1) {
        Some(t) => t,
        None => return None,
    };
    let b = Ballot { n: n as u32, pid };
    proof {
        lemma_at_join(buf@, pos as int, le_bytes(b.n as u64), le_bytes(b.pid));
    }
    Some((b, p2))
}

/// A one-byte tag.
fn read_tag(buf: &Vec<u8>, pos: usize) -> (r: Option<(u8, usize)>)
    ensures
        forall|t: u8| #[trigger] at(buf@, pos as int, seq![t]) ==> r == Some((t, (pos + 1) as usize)),
        r matches Some((_, end)) ==> end == pos + 1 && end <= buf@.len(),
        r matches Some((t, _)) ==> at(buf@, pos as int, seq![t]),
{
    if pos >= buf.len() {
        return None;
    }
    let t = buf[pos];
    proof {
        assert forall|u: u8| #[trigger] at(buf@, pos as int, seq![u]) implies t == u by {
            assert(buf@.subrange(pos as int, pos + 1)[0] == buf@[pos as int]);
        }
        assert(buf@.subrange(pos as int, pos + 1) =~= seq![t]);
    }
    Some((t, pos + 1))
}

/// An optional byte string: a tag, then the bytes if there are any.
pub open spec fn enc_opt_bytes(o: Option<Vec<u8>>) -> Seq<u8> {
    match o {
        None => seq![0u8],
        Some(b) => seq![1u8] + enc_bytes(b@),
    }
}

pub open spec fn same_opt_bytes(a: Option<Vec<u8>>, b: Option<Vec<u8>>) -> bool {
    match (a, b) {
        (None, None) => true,
        (Some(x), Some(y)) => x@ == y@,
        _ => false,
    }
}

fn write_opt_bytes(out: &mut Vec<u8>, o: &Option<Vec<u8>>)
    ensures
        final(out)@ == old(out)@ + enc_opt_bytes(*o),
{
    match o {
        None => {
            out.push(0u8);
            assert(out@ =~= old(out)@ + enc_opt_bytes(*o));
        },
        Some(b) => {
            out.push(1u8);
            write_bytes(out, b);
            assert(out@ =~= old(out)@ + enc_opt_bytes(*o));
        },
    }
}

fn read_opt_bytes(buf: &Vec<u8>, pos: usize) -> (r: Option<(Option<Vec<u8>>, usize)>)
    ensures
        forall|o: Option<Vec<u8>>| #[trigger] at(buf@, pos as int, enc_opt_bytes(o)) ==> (r matches Some((
            v,
            end,
        )) && same_opt_bytes(v, o) && end == pos + enc_opt_bytes(o).len()),
        r matches Some((v, end)) ==> at(buf@, pos as int, enc_opt_bytes(v)) && end == pos + enc_opt_bytes(v).len(),
{
    proof {
        assert forall|o: Option<Vec<u8>>| #[trigger] at(buf@, pos as int, enc_opt_bytes(o)) implies (o is None
            && at(buf@, pos as int, seq![0u8])) || (o matches Some(b) && at(buf@, pos as int, seq![1u8])
            && at(buf@, pos + 1, enc_bytes(b@))) by {
            if let Some(b) = o {
                lemma_at_split(buf@, pos as int, seq![1u8], enc_bytes(b@));
            }
        }
    }
    let (t, p1) = match read_tag(buf, pos) {
        Some(x) => x,
        None => return None,
    };
    if t == 0 {
        Some((None, p1))
    } else if t == 1 {
        match read_bytes(buf, p1) {
            Some((b, end)) => {
                proof {
                    lemma_at_join(buf@, pos as int, seq![1u8], enc_bytes(b@));
                }
                Some((Some(b), end))
            },
            None => None,
        }
    } else {
        None
    }
}

/// A snapshot: a tag for its kind, then its bytes.
pub open spec fn enc_snapshot(s: SnapshotType) -> Seq<u8> {
    match s {
        SnapshotType::Complete(b) => seq![0u8] + enc_bytes(b@),
        SnapshotType::Delta(b) => seq![1u8] + enc_bytes(b@),
    }
}

pub open spec fn same_snapshot(a: SnapshotType, b: SnapshotType) -> bool {
    match (a, b) {
        (SnapshotType::Complete(x), SnapshotType::Complete(y)) => x@ == y@,
        (SnapshotType::Delta(x), SnapshotType::Delta(y)) => x@ == y@,
        _ => false,
    }
}

/// An optional snapshot: a tag, then the snapshot if there is one.
pub open spec fn enc_opt_snapshot(o: Option<SnapshotType>) -> Seq<u8> {
    match o {
        None => seq![0u8],
        Some(s) => seq![1u8] + enc_snapshot(s),
    }
}

pub open spec fn same_opt_snapshot(a: Option<SnapshotType>, b: Option<SnapshotType>) -> bool {
    match (a, b) {
        (None, None) => true,
        (Some(x), Some(y)) => same_snapshot(x, y),
        _ => false,
    }
}

fn write_opt_snapshot(out: &mut Vec<u8>, o: &Option<SnapshotType>)
    ensures
        final(out)@ == old(out)@ + enc_opt_snapshot(*o),
{
    match o {
        None => {
            out.push(0u8);
        },
        Some(SnapshotType::Complete(b)) => {
            out.push(1u8);
            out.push(0u8);
            write_bytes(out, b);
        },
        Some(SnapshotType::Delta(b)) => {
            out.push(1u8);
            out.push(1u8);
            write_bytes(out, b);
        },
    }
    assert(out@ =~= old(out)@ + enc_opt_snapshot(*o));
}

fn read_opt_snapshot(buf: &Vec<u8>, pos: usize) -> (r: Option<(Option<SnapshotType>, usize)>)
    ensures
        forall|o: Option<SnapshotType>| #[trigger] at(buf@, pos as int, enc_opt_snapshot(o)) ==> (
        r matches Some((v, end)) && same_opt_snapshot(v, o) && end == pos + enc_opt_snapshot(o).len()),
        r matches Some((v, end)) ==> at(buf@, pos as int, enc_opt_snapshot(v)) && end == pos + enc_opt_snapshot(v).len(),
{
    proof {
        assert forall|o: Option<SnapshotType>| #[trigger] at(buf@, pos as int, enc_opt_snapshot(o)) implies (
        o is None && at(buf@, pos as int, seq![0u8])) || (o matches Some(SnapshotType::Complete(b))
            && at(buf@, pos as int, seq![1u8]) && at(buf@, pos + 1, seq![0u8]) && at(buf@, pos + 2, enc_bytes(b@)))
            || (o matches Some(SnapshotType::Delta(b)) && at(buf@, pos as int, seq![1u8]) && at(buf@, pos + 1, seq![1u8])
            && at(buf@, pos + 2, enc_bytes(b@))) by {
            if let Some(s) = o {
                lemma_at_split(buf@, pos as int, seq![1u8], enc_snapshot(s));
                match s {
                    SnapshotType::Complete(b) => lemma_at_split(buf@, pos + 1, seq![0u8], enc_bytes(b@)),
                    SnapshotType::Delta(b) => lemma_at_split(buf@, pos + 1, seq![1u8], enc_bytes(b@)),
                }
            }
        }
    }
    let (t, p1) = match read_tag(buf, pos) {
        Some(x) => x,
        None => return None,
    };
    if t == 0 {
        return Some((None, p1));
    }
    if t != 1 {
        return None;
    }
    let (k, p2) = match read_tag(buf, p1) {
        Some(x) => x,
        None => return None,
    };
    let (b, end) = match read_bytes(buf, p2) {
        Some(x) => x,
        None => return None,
    };
    proof {
        lemma_at_join(buf@, p1 as int, seq![k], enc_bytes(b@));
        lemma_at_join(buf@, pos as int, seq![1u8], seq![k] + enc_bytes(b@));
    }
    if k == 0 {
        Some((Some(SnapshotType::Complete(b)), end))
    } else if k == 1 {
        Some((Some(SnapshotType::Delta(b)), end))
    } else {
        None
    }
}

/// A stop sign: its configuration, its members, then its metadata.
pub open spec fn enc_stopsign(ss: StopSign) -> Seq<u8> {
    le_bytes(ss.config_id as u64) + (enc_ids(ss.nodes@) + enc_opt_bytes(ss.metadata))
}

pub open spec fn same_stopsign(a: StopSign, b: StopSign) -> bool {
    a.config_id == b.config_id && a.nodes@ == b.nodes@ && same_opt_bytes(a.metadata, b.metadata)
}

fn write_stopsign(out: &mut Vec<u8>, ss: &StopSign)
    ensures
        final(out)@ == old(out)@ + enc_stopsign(*ss),
{
    write_u64(out, ss.config_id as u64);
    write_ids(out, &ss.nodes);
    write_opt_bytes(out, &ss.metadata);
    assert(out@ =~= old(out)@ + enc_stopsign(*ss));
}

fn read_stopsign(buf: &Vec<u8>, pos: usize) -> (r: Option<(StopSign, usize)>)
    ensures
        forall|ss: StopSign| #[trigger] at(buf@, pos as int, enc_stopsign(ss)) ==> (r matches Some((v, end))
            && same_stopsign(v, ss) && end == pos + enc_stopsign(ss).len()),
        r matches Some((v, end)) ==> at(buf@, pos as int, enc_stopsign(v)) && end == pos + enc_stopsign(v).len(),
{
    proof {
        assert forall|ss: StopSign| #[trigger] at(buf@, pos as int, enc_stopsign(ss)) implies at(buf@, pos as int, le_bytes(ss.config_id as u64))
            && at(buf@, pos + 8, enc_ids(ss.nodes@)) && at(buf@, pos + 8 + enc_ids(ss.nodes@).len(), enc_opt_bytes(ss.metadata)) by {
            lemma_at_split(buf@, pos as int, le_bytes(ss.config_id as u64), enc_ids(ss.nodes@) + enc_opt_bytes(ss.metadata));
            lemma_at_split(buf@, pos + 8, enc_ids(ss.nodes@), enc_opt_bytes(ss.metadata));
        }
    }
    let (c, p1) = match read_u64(buf, pos) {
        Some(x) => x,
        None => return None,
    };
    if c > u32::MAX as u64 {
        return None;
    }
    let (nodes, p2) = match read_ids(buf, p1) {
        Some(x) => x,
        None => return None,
    };
    let (metadata, p3) = match read_opt_bytes(buf, p2) {
        Some(x) => x,
        None => return None,
    };
    let ss = StopSign { config_id: c as u32, nodes, metadata };
    proof {
        lemma_at_join(buf@, p1 as int, enc_ids(ss.nodes@), enc_opt_bytes(ss.metadata));
        lemma_at_join(buf@, pos as int, le_bytes(c), enc_ids(ss.nodes@) + enc_opt_bytes(ss.metadata));
    }
    Some((ss, p3))
}

/// An optional stop sign: a tag, then the stop sign if there is one.
pub open spec fn enc_opt_stopsign(o: Option<StopSign>) -> Seq<u8> {
    match o {
        None => seq![0u8],
        Some(ss) => seq![1u8] + enc_stopsign(ss),
    }
}

pub open spec fn same_opt_stopsign(a: Option<StopSign>, b: Option<StopSign>) -> bool {
    match (a, b) {
        (None, None) => true,
        (Some(x), Some(y)) => same_stopsign(x, y),
        _ => false,
    }
}

fn write_opt_stopsign(out: &mut Vec<u8>, o: &Option<StopSign>)
    ensures
        final(out)@ == old(out)@ + enc_opt_stopsign(*o),
{
    match o {
        None => {
            out.push(0u8);
        },
        Some(ss) => {
            out.push(1u8);
            write_stopsign(out, ss);
        },
    }
    assert(out@ =~= old(out)@ + enc_opt_stopsign(*o));
}

fn read_opt_stopsign(buf: &Vec<u8>, pos: usize) -> (r: Option<(Option<StopSign>, usize)>)
    ensures
        forall|o: Option<StopSign>| #[trigger] at(buf@, pos as int, enc_opt_stopsign(o)) ==> (r matches Some((
            v,
            end,
        )) && same_opt_stopsign(v, o) && end == pos + enc_opt_stopsign(o).len()),
        r matches Some((v, end)) ==> at(buf@, pos as int, enc_opt_stopsign(v)) && end == pos + enc_opt_stopsign(v).len(),
{
    proof {
        assert forall|o: Option<StopSign>| #[trigger] at(buf@, pos as int, enc_opt_stopsign(o)) implies (o is None
            && at(buf@, pos as int, seq![0u8])) || (o matches Some(ss) && at(buf@, pos as int, seq![1u8])
            && at(buf@, pos + 1, enc_stopsign(ss))) by {
            if let Some(ss) = o {
                lemma_at_split(buf@, pos as int, seq![1u8], enc_stopsign(ss));
            }
        }
    }
    let (t, p1) = match read_tag(buf, pos) {
        Some(x) => x,
        None => return None,
    };
    if t == 0 {
        Some((None, p1))
    } else if t == 1 {
        match read_stopsign(buf, p1) {
            Some((ss, end)) => {
                proof {
                    lemma_at_join(buf@, pos as int, seq![1u8], enc_stopsign(ss));
                }
                Some((Some(ss), end))
            },
            None => None,
        }
    } else {
        None
    }
}

/// A prepare: its round, decided index, accepted round and log length.
pub open spec fn enc_prepare(p: Prepare) -> Seq<u8> {
    enc_ballot(p.n) + (le_bytes(p.decided_idx) + (enc_ballot(p.n_accepted) + le_bytes(p.accepted_idx)))
}

fn write_prepare(out: &mut Vec<u8>, p: &Prepare)
    ensures
        final(out)@ == old(out)@ + enc_prepare(*p),
{
    write_ballot(out, p.n);
    write_u64(out, p.decided_idx);
    write_ballot(out, p.n_accepted);
    write_u64(out, p.accepted_idx);
    assert(out@ =~= old(out)@ + enc_prepare(*p));
}

fn read_prepare(buf: &Vec<u8>, pos: usize) -> (r: Option<(Prepare, usize)>)
    ensures
        forall|p: Prepare| #[trigger] at(buf@, pos as int, enc_prepare(p)) ==> (r matches Some((v, end)) && v
            == p && end == pos + enc_prepare(p).len()),
        r matches Some((v, end)) ==> at(buf@, pos as int, enc_prepare(v)) && end == pos + enc_prepare(v).len(),
{
    proof {
        assert forall|p: Prepare| #[trigger] at(buf@, pos as int, enc_prepare(p)) implies at(buf@, pos as int, enc_ballot(p.n))
            && at(buf@, pos + 16, le_bytes(p.decided_idx)) && at(buf@, pos + 24, enc_ballot(p.n_accepted))
            && at(buf@, pos + 40, le_bytes(p.accepted_idx)) by {
            lemma_at_split(buf@, pos as int, enc_ballot(p.n), le_bytes(p.decided_idx) + (enc_ballot(p.n_accepted) + le_bytes(p.accepted_idx)));
            lemma_at_split(buf@, pos + 16, le_bytes(p.decided_idx), enc_ballot(p.n_accepted) + le_bytes(p.accepted_idx));
            lemma_at_split(buf@, pos + 24, enc_ballot(p.n_accepted), le_bytes(p.accepted_idx));
        }
    }
    let (n, p1) = match read_ballot(buf, pos) {
        Some(x) => x,
        None => return None,
    };
    let (decided_idx, p2) = match read_u64(buf, p1) {
        Some(x) => x,
        None => return None,
    };
    let (n_accepted, p3) = match read_ballot(buf, p2) {
        Some(x) => x,
        None => return None,
    };
    let (accepted_idx, p4) = match read_u64(buf, p3) {
        Some(x) => x,
        None => return None,
    };
    proof {
        lemma_at_join(buf@, p2 as int, enc_ballot(n_accepted), le_bytes(accepted_idx));
        lemma_at_join(buf@, p1 as int, le_bytes(decided_idx), enc_ballot(n_accepted) + le_bytes(accepted_idx));
        lemma_at_join(buf@, pos as int, enc_ballot(n), le_bytes(decided_idx) + (enc_ballot(n_accepted) + le_bytes(accepted_idx)));
    }
    Some((Prepare { n, decided_idx, n_accepted, accepted_idx }, p4))
}

/// A promise: its rounds, decided snapshot, log suffix, indices and stop sign.
pub open spec fn enc_promise(p: Promise) -> Seq<u8> {
    enc_ballot(p.n) + (enc_ballot(p.n_accepted) + (enc_opt_snapshot(p.decided_snapshot) + (enc_list(
        views(p.suffix@),
    ) + (le_bytes(p.decided_idx) + (le_bytes(p.accepted_idx) + enc_opt_stopsign(p.stopsign))))))
}

pub open spec fn same_promise(a: Promise, b: Promise) -> bool {
    a.n == b.n && a.n_accepted == b.n_accepted && same_opt_snapshot(a.decided_snapshot, b.decided_snapshot)
        && views(a.suffix@) == views(b.suffix@) && a.decided_idx == b.decided_idx && a.accepted_idx
        == b.accepted_idx && same_opt_stopsign(a.stopsign, b.stopsign)
}

fn write_promise(out: &mut Vec<u8>, p: &Promise)
    ensures
        final(out)@ == old(out)@ + enc_promise(*p),
{
    write_ballot(out, p.n);
    write_ballot(out, p.n_accepted);
    write_opt_snapshot(out, &p.decided_snapshot);
    write_list(out, &p.suffix);
    write_u64(out, p.decided_idx);
    write_u64(out, p.accepted_idx);
    write_opt_stopsign(out, &p.stopsign);
    assert(out@ =~= old(out)@ + enc_promise(*p));
}

#[verifier::spinoff_prover]
#[verifier::rlimit(60)]
fn read_promise(buf: &Vec<u8>, pos: usize) -> (r: Option<(Promise, usize)>)
    ensures
        forall|p: Promise| #[trigger] at(buf@, pos as int, enc_promise(p)) ==> (r matches Some((v, end))
            && same_promise(v, p) && end == pos + enc_promise(p).len()),
        r matches Some((v, end)) ==> at(buf@, pos as int, enc_promise(v)) && end == pos + enc_promise(v).len(),
{
    proof {
        assert forall|p: Promise| #[trigger] at(buf@, pos as int, enc_promise(p)) implies ({
            let c = enc_opt_snapshot(p.decided_snapshot);
            let d = enc_list(views(p.suffix@));
            &&& at(buf@, pos as int, enc_ballot(p.n))
            &&& at(buf@, pos + 16, enc_ballot(p.n_accepted))
            &&& at(buf@, pos + 32, c)
            &&& at(buf@, pos + 32 + c.len(), d)
            &&& at(buf@, pos + 32 + c.len() + d.len(), le_bytes(p.decided_idx))
            &&& at(buf@, pos + 40 + c.len() + d.len(), le_bytes(p.accepted_idx))
            &&& at(buf@, pos + 48 + c.len() + d.len(), enc_opt_stopsign(p.stopsign))
        }) by {
            let a = enc_ballot(p.n);
            let b = enc_ballot(p.n_accepted);
            let c = enc_opt_snapshot(p.decided_snapshot);
            let d = enc_list(views(p.suffix@));
            let e = le_bytes(p.decided_idx);
            let f = le_bytes(p.accepted_idx);
            let g = enc_opt_stopsign(p.stopsign);
            lemma_at_split(buf@, pos as int, a, b + (c + (d + (e + (f + g)))));
            lemma_at_split(buf@, pos + 16, b, c + (d + (e + (f + g))));
            lemma_at_split(buf@, pos + 32, c, d + (e + (f + g)));
            lemma_at_split(buf@, pos + 32 + c.len(), d, e + (f + g));
            lemma_at_split(buf@, pos + 32 + c.len() + d.len(), e, f + g);
            lemma_at_split(buf@, pos + 40 + c.len() + d.len(), f, g);
        }
    }
    let (n, p1) = match read_ballot(buf, pos) {
        Some(x) => x,
        None => return None,
    };
    let (n_accepted, p2) = match read_ballot(buf, p1) {
        Some(x) => x,
        None => return None,
    };
    let (decided_snapshot, p3) = match read_opt_snapshot(buf, p2) {
        Some(x) => x,
        None => return None,
    };
    let (suffix, p4) = match read_list(buf, p3) {
        Some(x) => x,
        None => return None,
    };
    let (decided_idx, p5) = match read_u64(buf, p4) {
        Some(x) => x,
        None => return None,
    };
    let (accepted_idx, p6) = match read_u64(buf, p5) {
        Some(x) => x,
        None => return None,
    };
    let (stopsign, p7) = match read_opt_stopsign(buf, p6) {
        Some(x) => x,
        None => return None,
    };
    let p = Promise { n, n_accepted, decided_snapshot, suffix, decided_idx, accepted_idx, stopsign };
    proof {
        let a = enc_ballot(p.n);
        let b = enc_ballot(p.n_accepted);
        let c = enc_opt_snapshot(p.decided_snapshot);
        let d = enc_list(views(p.suffix@));
        let e = le_bytes(p.decided_idx);
        let f = le_bytes(p.accepted_idx);
        let g = enc_opt_stopsign(p.stopsign);
        lemma_at_join(buf@, p5 as int, f, g);
        lemma_at_join(buf@, p4 as int, e, f + g);
        lemma_at_join(buf@, p3 as int, d, e + (f + g));
        lemma_at_join(buf@, p2 as int, c, d + (e + (f + g)));
        lemma_at_join(buf@, p1 as int, b, c + (d + (e + (f + g))));
        lemma_at_join(buf@, pos as int, a, b + (c + (d + (e + (f + g)))));
    }
    Some((p, p7))
}

/// An accept-sync: its round, decided snapshot, log suffix, indices and stop sign.
pub open spec fn enc_accept_sync(a: AcceptSync) -> Seq<u8> {
    enc_ballot(a.n) + (enc_opt_snapshot(a.decided_snapshot) + (enc_list(views(a.suffix@)) + (le_bytes(
        a.sync_idx,
    ) + (le_bytes(a.decided_idx) + enc_opt_stopsign(a.stopsign)))))
}

pub open spec fn same_accept_sync(a: AcceptSync, b: AcceptSync) -> bool {
    a.n == b.n && same_opt_snapshot(a.decided_snapshot, b.decided_snapshot) && views(a.suffix@)
        == views(b.suffix@) && a.sync_idx == b.sync_idx && a.decided_idx == b.decided_idx
        && same_opt_stopsign(a.stopsign, b.stopsign)
}

fn write_accept_sync(out: &mut Vec<u8>, a: &AcceptSync)
    ensures
        final(out)@ == old(out)@ + enc_accept_sync(*a),
{
    write_ballot(out, a.n);
    write_opt_snapshot(out, &a.decided_snapshot);
    write_list(out, &a.suffix);
    write_u64(out, a.sync_idx);
    write_u64(out, a.decided_idx);
    write_opt_stopsign(out, &a.stopsign);
    assert(out@ =~= old(out)@ + enc_accept_sync(*a));
}

#[verifier::spinoff_prover]
#[verifier::rlimit(60)]
fn read_accept_sync(buf: &Vec<u8>, pos: usize) -> (r: Option<(AcceptSync, usize)>)
    ensures
        forall|a: AcceptSync| #[trigger] at(buf@, pos as int, enc_accept_sync(a)) ==> (r matches Some((
            v,
            end,
        )) && same_accept_sync(v, a) && end == pos + enc_accept_sync(a).len()),
        r matches Some((v, end)) ==> at(buf@, pos as int, enc_accept_sync(v)) && end == pos + enc_accept_sync(v).len(),
{
    proof {
        assert forall|a: AcceptSync| #[trigger] at(buf@, pos as int, enc_accept_sync(a)) implies ({
            let c = enc_opt_snapshot(a.decided_snapshot);
            let d = enc_list(views(a.suffix@));
            &&& at(buf@, pos as int, enc_ballot(a.n))
            &&& at(buf@, pos + 16, c)
            &&& at(buf@, pos + 16 + c.len(), d)
            &&& at(buf@, pos + 16 + c.len() + d.len(), le_bytes(a.sync_idx))
            &&& at(buf@, pos + 24 + c.len() + d.len(), le_bytes(a.decided_idx))
            &&& at(buf@, pos + 32 + c.len() + d.len(), enc_opt_stopsign(a.stopsign))
        }) by {
            let b = enc_ballot(a.n);
            let c = enc_opt_snapshot(a.decided_snapshot);
            let d = enc_list(views(a.suffix@));
            let e = le_bytes(a.sync_idx);
            let f = le_bytes(a.decided_idx);
            let g = enc_opt_stopsign(a.stopsign);
            lemma_at_split(buf@, pos as int, b, c + (d + (e + (f + g))));
            lemma_at_split(buf@, pos + 16, c, d + (e + (f + g)));
            lemma_at_split(buf@, pos + 16 + c.len(), d, e + (f + g));
            lemma_at_split(buf@, pos + 16 + c.len() + d.len(), e, f + g);
            lemma_at_split(buf@, pos + 24 + c.len() + d.len(), f, g);
        }
    }
    let (n, p1) = match read_ballot(buf, pos) {
        Some(x) => x,
        None => return None,
    };
    let (decided_snapshot, p2) = match read_opt_snapshot(buf, p1) {
        Some(x) => x,
        None => return None,
    };
    let (suffix, p3) = match read_list(buf, p2) {
        Some(x) => x,
        None => return None,
    };
    let (sync_idx, p4) = match read_u64(buf, p3) {
        Some(x) => x,
        None => return None,
    };
    let (decided_idx, p5) = match read_u64(buf, p4) {
        Some(x) => x,
        None => return None,
    };
    let (stopsign, p6) = match read_opt_stopsign(buf, p5) {
        Some(x) => x,
        None => return None,
    };
    let a = AcceptSync { n, decided_snapshot, suffix, sync_idx, decided_idx, stopsign };
    proof {
        let b = enc_ballot(a.n);
        let c = enc_opt_snapshot(a.decided_snapshot);
        let d = enc_list(views(a.suffix@));
        let e = le_bytes(a.sync_idx);
        let f = le_bytes(a.decided_idx);
        let g = enc_opt_stopsign(a.stopsign);
        lemma_at_join(buf@, p4 as int, f, g);
        lemma_at_join(buf@, p3 as int, e, f + g);
        lemma_at_join(buf@, p2 as int, d, e + (f + g));
        lemma_at_join(buf@, p1 as int, c, d + (e + (f + g)));
        lemma_at_join(buf@, pos as int, b, c + (d + (e + (f + g))));
    }
    Some((a, p6))
}

/// An accept-decide: its round, decided index and entries.
pub open spec fn enc_accept_decide(a: AcceptDecide) -> Seq<u8> {
    enc_ballot(a.n) + (le_bytes(a.decided_idx) + enc_list(views(a.entries@)))
}

pub open spec fn same_accept_decide(a: AcceptDecide, b: AcceptDecide) -> bool {
    a.n == b.n && a.decided_idx == b.decided_idx && views(a.entries@) == views(b.entries@)
}

fn write_accept_decide(out: &mut Vec<u8>, a: &AcceptDecide)
    ensures
        final(out)@ == old(out)@ + enc_accept_decide(*a),
{
    write_ballot(out, a.n);
    write_u64(out, a.decided_idx);
    write_list(out, &a.entries);
    assert(out@ =~= old(out)@ + enc_accept_decide(*a));
}

fn read_accept_decide(buf: &Vec<u8>, pos: usize) -> (r: Option<(AcceptDecide, usize)>)
    ensures
        forall|a: AcceptDecide| #[trigger] at(buf@, pos as int, enc_accept_decide(a)) ==> (r matches Some((
            v,
            end,
        )) && same_accept_decide(v, a) && end == pos + enc_accept_decide(a).len()),
        r matches Some((v, end)) ==> at(buf@, pos as int, enc_accept_decide(v)) && end == pos + enc_accept_decide(v).len(),
{
    proof {
        assert forall|a: AcceptDecide| #[trigger] at(buf@, pos as int, enc_accept_decide(a)) implies at(buf@, pos as int, enc_ballot(a.n))
            && at(buf@, pos + 16, le_bytes(a.decided_idx)) && at(buf@, pos + 24, enc_list(views(a.entries@))) by {
            lemma_at_split(buf@, pos as int, enc_ballot(a.n), le_bytes(a.decided_idx) + enc_list(views(a.entries@)));
            lemma_at_split(buf@, pos + 16, le_bytes(a.decided_idx), enc_list(views(a.entries@)));
        }
    }
    let (n, p1) = match read_ballot(buf, pos) {
        Some(x) => x,
        None => return None,
    };
    let (decided_idx, p2) = match read_u64(buf, p1) {
        Some(x) => x,
        None => return None,
    };
    let (entries, p3) = match read_list(buf, p2) {
        Some(x) => x,
        None => return None,
    };
    let a = AcceptDecide { n, decided_idx, entries };
    proof {
        lemma_at_join(buf@, p1 as int, le_bytes(a.decided_idx), enc_list(views(a.entries@)));
        lemma_at_join(buf@, pos as int, enc_ballot(a.n), le_bytes(a.decided_idx) + enc_list(views(a.entries@)));
    }
    Some((a, p3))
}

/// A ballot followed by an index, the shape of accepted and decide.
pub open spec fn enc_ballot_idx(n: Ballot, idx: u64) -> Seq<u8> {
    enc_ballot(n) + le_bytes(idx)
}

fn read_ballot_idx(buf: &Vec<u8>, pos: usize) -> (r: Option<(Ballot, u64, usize)>)
    ensures
        forall|n: Ballot, idx: u64| #[trigger] at(buf@, pos as int, enc_ballot_idx(n, idx)) ==> (r matches Some(
            (a, b, end),
        ) && a == n && b == idx && end == pos + 24),
        r matches Some((n, idx, end)) ==> at(buf@, pos as int, enc_ballot_idx(n, idx)) && end == pos + 24,
{
    proof {
        assert forall|n: Ballot, idx: u64| #[trigger] at(buf@, pos as int, enc_ballot_idx(n, idx)) implies at(buf@, pos as int, enc_ballot(n))
            && at(buf@, pos + 16, le_bytes(idx)) by {
            lemma_at_split(buf@, pos as int, enc_ballot(n), le_bytes(idx));
        }
    }
    let (n, p1) = match read_ballot(buf, pos) {
        Some(x) => x,
        None => return None,
    };
    let (idx, p2) = match read_u64(buf, p1) {
        Some(x) => x,
        None => return None,
    };
    proof {
        lemma_at_join(buf@, pos as int, enc_ballot(n), le_bytes(idx));
    }
    Some((n, idx, p2))
}

/// A stop sign to accept: its round, then the stop sign.
pub open spec fn enc_accept_stopsign(a: AcceptStopSign) -> Seq<u8> {
    enc_ballot(a.n) + enc_stopsign(a.ss)
}

fn read_accept_stopsign(buf: &Vec<u8>, pos: usize) -> (r: Option<(AcceptStopSign, usize)>)
    ensures
        forall|a: AcceptStopSign| #[trigger] at(buf@, pos as int, enc_accept_stopsign(a)) ==> (r matches Some(
            (v, end),
        ) && v.n == a.n && same_stopsign(v.ss, a.ss) && end == pos + enc_accept_stopsign(a).len()),
        r matches Some((v, end)) ==> at(buf@, pos as int, enc_accept_stopsign(v)) && end == pos + enc_accept_stopsign(v).len(),
{
    proof {
        assert forall|a: AcceptStopSign| #[trigger] at(buf@, pos as int, enc_accept_stopsign(a)) implies at(buf@, pos as int, enc_ballot(a.n))
            && at(buf@, pos + 16, enc_stopsign(a.ss)) by {
            lemma_at_split(buf@, pos as int, enc_ballot(a.n), enc_stopsign(a.ss));
        }
    }
    let (n, p1) = match read_ballot(buf, pos) {
        Some(x) => x,
        None => return None,
    };
    let (ss, p2) = match read_stopsign(buf, p1) {
        Some(x) => x,
        None => return None,
    };
    proof {
        lemma_at_join(buf@, pos as int, enc_ballot(n), enc_stopsign(ss));
    }
    Some((AcceptStopSign { n, ss }, p2))
}

/// A compaction request: a tag for its kind, then its index if it has one.
pub open spec fn enc_compaction(c: Compaction) -> Seq<u8> {
    match c {
        Compaction::Trim(i) => seq![0u8] + le_bytes(i),
        Compaction::Snapshot(None) => seq![1u8],
        Compaction::Snapshot(Some(i)) => seq![2u8] + le_bytes(i),
    }
}

fn write_compaction(out: &mut Vec<u8>, c: Compaction)
    ensures
        final(out)@ == old(out)@ + enc_compaction(c),
{
    match c {
        Compaction::Trim(i) => {
            out.push(0u8);
            write_u64(out, i);
        },
        Compaction::Snapshot(None) => {
            out.push(1u8);
        },
        Compaction::Snapshot(Some(i)) => {
            out.push(2u8);
            write_u64(out, i);
        },
    }
    assert(out@ =~= old(out)@ + enc_compaction(c));
}

fn read_compaction(buf: &Vec<u8>, pos: usize) -> (r: Option<(Compaction, usize)>)
    ensures
        forall|c: Compaction| #[trigger] at(buf@, pos as int, enc_compaction(c)) ==> (r matches Some((v, end))
            && v == c && end == pos + enc_compaction(c).len()),
        r matches Some((v, end)) ==> at(buf@, pos as int, enc_compaction(v)) && end == pos + enc_compaction(v).len(),
{
    proof {
        assert forall|c: Compaction| #[trigger] at(buf@, pos as int, enc_compaction(c)) implies (c matches Compaction::Trim(i)
            && at(buf@, pos as int, seq![0u8]) && at(buf@, pos + 1, le_bytes(i))) || (c matches Compaction::Snapshot(None)
            && at(buf@, pos as int, seq![1u8])) || (c matches Compaction::Snapshot(Some(i)) && at(buf@, pos as int, seq![2u8])
            && at(buf@, pos + 1, le_bytes(i))) by {
            match c {
                Compaction::Trim(i) => lemma_at_split(buf@, pos as int, seq![0u8], le_bytes(i)),
                Compaction::Snapshot(Some(i)) => lemma_at_split(buf@, pos as int, seq![2u8], le_bytes(i)),
                _ => {},
            }
        }
    }
    let (t, p1) = match read_tag(buf, pos) {
        Some(x) => x,
        None => return None,
    };
    if t == 1 {
        return Some((Compaction::Snapshot(None), p1));
    }
    let (i, p2) = match read_u64(buf, p1) {
        Some(x) => x,
        None => return None,
    };
    proof {
        lemma_at_join(buf@, pos as int, seq![t], le_bytes(i));
    }
    if t == 0 {
        Some((Compaction::Trim(i), p2))
    } else if t == 2 {
        Some((Compaction::Snapshot(Some(i)), p2))
    } else {
        None
    }
}

/// The tag that tells the log-replication payloads apart.
pub open spec fn paxos_tag(m: PaxosMsg) -> u8 {
    match m {
        PaxosMsg::PrepareReq => 0,
        PaxosMsg::Prepare(_) => 1,
        PaxosMsg::Promise(_) => 2,
        PaxosMsg::AcceptSync(_) => 3,
        PaxosMsg::FirstAccept(_) => 4,
        PaxosMsg::AcceptDecide(_) => 5,
        PaxosMsg::Accepted(_) => 6,
        PaxosMsg::Decide(_) => 7,
        PaxosMsg::ProposalForward(_) => 8,
        PaxosMsg::Compaction(_) => 9,
        PaxosMsg::AcceptStopSign(_) => 10,
        PaxosMsg::AcceptedStopSign(_) => 11,
        PaxosMsg::DecideStopSign(_) => 12,
        PaxosMsg::ForwardStopSign(_) => 13,
    }
}

/// What follows the tag of a log-replication payload.
pub open spec fn paxos_body(m: PaxosMsg) -> Seq<u8> {
    match m {
        PaxosMsg::PrepareReq => Seq::empty(),
        PaxosMsg::Prepare(p) => enc_prepare(p),
        PaxosMsg::Promise(p) => enc_promise(p),
        PaxosMsg::AcceptSync(a) => enc_accept_sync(a),
        PaxosMsg::FirstAccept(f) => enc_ballot(f.n),
        PaxosMsg::AcceptDecide(a) => enc_accept_decide(a),
        PaxosMsg::Accepted(a) => enc_ballot_idx(a.n, a.accepted_idx),
        PaxosMsg::Decide(d) => enc_ballot_idx(d.n, d.decided_idx),
        PaxosMsg::ProposalForward(es) => enc_list(views(es@)),
        PaxosMsg::Compaction(c) => enc_compaction(c),
        PaxosMsg::AcceptStopSign(a) => enc_accept_stopsign(a),
        PaxosMsg::AcceptedStopSign(a) => enc_ballot(a.n),
        PaxosMsg::DecideStopSign(d) => enc_ballot(d.n),
        PaxosMsg::ForwardStopSign(ss) => enc_stopsign(ss),
    }
}

/// A log-replication payload: its tag, then its fields.
pub open spec fn enc_paxos_msg(m: PaxosMsg) -> Seq<u8> {
    seq![paxos_tag(m)] + paxos_body(m)
}

/// Equality of log-replication payloads, byte strings compared by content.
pub open spec fn same_paxos_msg(a: PaxosMsg, b: PaxosMsg) -> bool {
    match (a, b) {
        (PaxosMsg::PrepareReq, PaxosMsg::PrepareReq) => true,
        (PaxosMsg::Prepare(x), PaxosMsg::Prepare(y)) => x == y,
        (PaxosMsg::Promise(x), PaxosMsg::Promise(y)) => same_promise(x, y),
        (PaxosMsg::AcceptSync(x), PaxosMsg::AcceptSync(y)) => same_accept_sync(x, y),
        (PaxosMsg::FirstAccept(x), PaxosMsg::FirstAccept(y)) => x == y,
        (PaxosMsg::AcceptDecide(x), PaxosMsg::AcceptDecide(y)) => same_accept_decide(x, y),
        (PaxosMsg::Accepted(x), PaxosMsg::Accepted(y)) => x == y,
        (PaxosMsg::Decide(x), PaxosMsg::Decide(y)) => x == y,
        (PaxosMsg::ProposalForward(x), PaxosMsg::ProposalForward(y)) => views(x@) == views(y@),
        (PaxosMsg::Compaction(x), PaxosMsg::Compaction(y)) => x == y,
        (PaxosMsg::AcceptStopSign(x), PaxosMsg::AcceptStopSign(y)) => x.n == y.n && same_stopsign(
            x.ss,
            y.ss,
        ),
        (PaxosMsg::AcceptedStopSign(x), PaxosMsg::AcceptedStopSign(y)) => x == y,
        (PaxosMsg::DecideStopSign(x), PaxosMsg::DecideStopSign(y)) => x == y,
        (PaxosMsg::ForwardStopSign(x), PaxosMsg::ForwardStopSign(y)) => same_stopsign(x, y),
        _ => false,
    }
}

#[verifier::spinoff_prover]
#[verifier::rlimit(50)]
fn write_paxos_msg(out: &mut Vec<u8>, m: &PaxosMsg)
    ensures
        final(out)@ == old(out)@ + enc_paxos_msg(*m),
{
    match m {
        PaxosMsg::PrepareReq => {
            out.push(0u8);
        },
        PaxosMsg::Prepare(p) => {
            out.push(1u8);
            write_prepare(out, p);
        },
        PaxosMsg::Promise(p) => {
            out.push(2u8);
            write_promise(out, p);
        },
        PaxosMsg::AcceptSync(a) => {
            out.push(3u8);
            write_accept_sync(out, a);
        },
        PaxosMsg::FirstAccept(f) => {
            out.push(4u8);
            write_ballot(out, f.n);
        },
        PaxosMsg::AcceptDecide(a) => {
            out.push(5u8);
            write_accept_decide(out, a);
        },
        PaxosMsg::Accepted(a) => {
            out.push(6u8);
            write_ballot(out, a.n);
            write_u64(out, a.accepted_idx);
        },
        PaxosMsg::Decide(d) => {
            out.push(7u8);
            write_ballot(out, d.n);
            write_u64(out, d.decided_idx);
        },
        PaxosMsg::ProposalForward(es) => {
            out.push(8u8);
            write_list(out, es);
        },
        PaxosMsg::Compaction(c) => {
            out.push(9u8);
            write_compaction(out, *c);
        },
        PaxosMsg::AcceptStopSign(a) => {
            out.push(10u8);
            write_ballot(out, a.n);
            write_stopsign(out, &a.ss);
        },
        PaxosMsg::AcceptedStopSign(a) => {
            out.push(11u8);
            write_ballot(out, a.n);
        },
        PaxosMsg::DecideStopSign(d) => {
            out.push(12u8);
            write_ballot(out, d.n);
        },
        PaxosMsg::ForwardStopSign(ss) => {
            out.push(13u8);
            write_stopsign(out, ss);
        },
    }
    assert(out@ =~= old(out)@ + enc_paxos_msg(*m));
}

/// Reads the fields of a log-replication payload of the first phases.
#[verifier::spinoff_prover]
#[verifier::rlimit(60)]
fn read_paxos_body_early(buf: &Vec<u8>, pos: usize, t: u8) -> (r: Option<(PaxosMsg, usize)>)
    requires
        1 <= t <= 6,
    ensures
        forall|m: PaxosMsg| paxos_tag(m) == t && #[trigger] at(buf@, pos as int, paxos_body(m)) ==> (
        r matches Some((v, end)) && same_paxos_msg(v, m) && end == pos + paxos_body(m).len()),
        r matches Some((v, end)) ==> paxos_tag(v) == t && at(buf@, pos as int, paxos_body(v)) && end
            == pos + paxos_body(v).len(),
{
    if t == 1 {
        proof {
            assert forall|m: PaxosMsg| paxos_tag(m) == t && #[trigger] at(buf@, pos as int, paxos_body(m)) implies m is Prepare by {}
        }
        match read_prepare(buf, pos) {
            Some((p, end)) => Some((PaxosMsg::Prepare(p), end)),
            None => None,
        }
    } else if t == 2 {
        proof {
            assert forall|m: PaxosMsg| paxos_tag(m) == t && #[trigger] at(buf@, pos as int, paxos_body(m)) implies m is Promise by {}
        }
        match read_promise(buf, pos) {
            Some((p, end)) => Some((PaxosMsg::Promise(p), end)),
            None => None,
        }
    } else if t == 3 {
        proof {
            assert forall|m: PaxosMsg| paxos_tag(m) == t && #[trigger] at(buf@, pos as int, paxos_body(m)) implies m is AcceptSync by {}
        }
        match read_accept_sync(buf, pos) {
            Some((a, end)) => Some((PaxosMsg::AcceptSync(a), end)),
            None => None,
        }
    } else if t == 4 {
        proof {
            assert forall|m: PaxosMsg| paxos_tag(m) == t && #[trigger] at(buf@, pos as int, paxos_body(m)) implies m is FirstAccept by {}
        }
        match read_ballot(buf, pos) {
            Some((n, end)) => Some((PaxosMsg::FirstAccept(FirstAccept { n }), end)),
            None => None,
        }
    } else if t == 5 {
        proof {
            assert forall|m: PaxosMsg| paxos_tag(m) == t && #[trigger] at(buf@, pos as int, paxos_body(m)) implies m is AcceptDecide by {}
        }
        match read_accept_decide(buf, pos) {
            Some((a, end)) => Some((PaxosMsg::AcceptDecide(a), end)),
            None => None,
        }
    } else if t == 6 {
        proof {
            assert forall|m: PaxosMsg| paxos_tag(m) == t && #[trigger] at(buf@, pos as int, paxos_body(m)) implies m is Accepted by {}
        }
        match read_ballot_idx(buf, pos) {
            Some((n, accepted_idx, end)) => Some((PaxosMsg::Accepted(Accepted { n, accepted_idx }), end)),
            None => None,
        }
    } else {
        None
    }
}

/// Reads the fields of a log-replication payload of the later phases.
#[verifier::spinoff_prover]
#[verifier::rlimit(60)]
fn read_paxos_body_late(buf: &Vec<u8>, pos: usize, t: u8) -> (r: Option<(PaxosMsg, usize)>)
    requires
        7 <= t <= 13,
    ensures
        forall|m: PaxosMsg| paxos_tag(m) == t && #[trigger] at(buf@, pos as int, paxos_body(m)) ==> (
        r matches Some((v, end)) && same_paxos_msg(v, m) && end == pos + paxos_body(m).len()),
        r matches Some((v, end)) ==> paxos_tag(v) == t && at(buf@, pos as int, paxos_body(v)) && end
            == pos + paxos_body(v).len(),
{
    if t == 7 {
        proof {
            assert forall|m: PaxosMsg| paxos_tag(m) == t && #[trigger] at(buf@, pos as int, paxos_body(m)) implies m is Decide by {}
        }
        match read_ballot_idx(buf, pos) {
            Some((n, decided_idx, end)) => Some((PaxosMsg::Decide(Decide { n, decided_idx }), end)),
            None => None,
        }
    } else if t == 8 {
        proof {
            assert forall|m: PaxosMsg| paxos_tag(m) == t && #[trigger] at(buf@, pos as int, paxos_body(m)) implies m is ProposalForward by {}
        }
        match read_list(buf, pos) {
            Some((es, end)) => Some((PaxosMsg::ProposalForward(es), end)),
            None => None,
        }
    } else if t == 9 {
        proof {
            assert forall|m: PaxosMsg| paxos_tag(m) == t && #[trigger] at(buf@, pos as int, paxos_body(m)) implies m is Compaction by {}
        }
        match read_compaction(buf, pos) {
            Some((c, end)) => Some((PaxosMsg::Compaction(c), end)),
            None => None,
        }
    } else if t == 10 {
        proof {
            assert forall|m: PaxosMsg| paxos_tag(m) == t && #[trigger] at(buf@, pos as int, paxos_body(m)) implies m is AcceptStopSign by {}
        }
        match read_accept_stopsign(buf, pos) {
            Some((a, end)) => Some((PaxosMsg::AcceptStopSign(a), end)),
            None => None,
        }
    } else if t == 11 {
        proof {
            assert forall|m: PaxosMsg| paxos_tag(m) == t && #[trigger] at(buf@, pos as int, paxos_body(m)) implies m is AcceptedStopSign by {}
        }
        match read_ballot(buf, pos) {
            Some((n, end)) => Some((PaxosMsg::AcceptedStopSign(AcceptedStopSign { n }), end)),
            None => None,
        }
    } else if t == 12 {
        proof {
            assert forall|m: PaxosMsg| paxos_tag(m) == t && #[trigger] at(buf@, pos as int, paxos_body(m)) implies m is DecideStopSign by {}
        }
        match read_ballot(buf, pos) {
            Some((n, end)) => Some((PaxosMsg::DecideStopSign(DecideStopSign { n }), end)),
            None => None,
        }
    } else if t == 13 {
        proof {
            assert forall|m: PaxosMsg| paxos_tag(m) == t && #[trigger] at(buf@, pos as int, paxos_body(m)) implies m is ForwardStopSign by {}
        }
        match read_stopsign(buf, pos) {
            Some((ss, end)) => Some((PaxosMsg::ForwardStopSign(ss), end)),
            None => None,
        }
    } else {
        None
    }
}

fn read_paxos_msg(buf: &Vec<u8>, pos: usize) -> (r: Option<(PaxosMsg, usize)>)
    ensures
        forall|m: PaxosMsg| #[trigger] at(buf@, pos as int, enc_paxos_msg(m)) ==> (r matches Some((v, end))
            && same_paxos_msg(v, m) && end == pos + enc_paxos_msg(m).len()),
        r matches Some((v, end)) ==> at(buf@, pos as int, enc_paxos_msg(v)) && end == pos + enc_paxos_msg(
            v,
        ).len(),
{
    proof {
        assert forall|m: PaxosMsg| #[trigger] at(buf@, pos as int, enc_paxos_msg(m)) implies at(buf@, pos as int, seq![paxos_tag(m)])
            && at(buf@, pos + 1, paxos_body(m)) by {
            lemma_at_split(buf@, pos as int, seq![paxos_tag(m)], paxos_body(m));
        }
    }
    let (t, p1) = match read_tag(buf, pos) {
        Some(x) => x,
        None => return None,
    };
    let r = if t == 0 {
        proof {
            assert forall|m: PaxosMsg| #[trigger] at(buf@, pos as int, enc_paxos_msg(m)) implies m is PrepareReq by {
                assert(paxos_tag(m) == t);
            }
            assert(buf@.subrange(p1 as int, p1 as int) =~= Seq::<u8>::empty());
        }
        Some((PaxosMsg::PrepareReq, p1))
    } else if t <= 6 {
        read_paxos_body_early(buf, p1, t)
    } else if t <= 13 {
        read_paxos_body_late(buf, p1, t)
    } else {
        proof {
            assert forall|m: PaxosMsg| #[trigger] at(buf@, pos as int, enc_paxos_msg(m)) implies false by {
                assert(paxos_tag(m) == t);
            }
        }
        None
    };
    proof {
        if r is Some {
            lemma_at_join(buf@, pos as int, seq![t], paxos_body(r.unwrap().0));
        }
    }
    r
}

/// A leader-election payload: a tag, then its fields.
pub open spec fn enc_heartbeat(h: HeartbeatMsg) -> Seq<u8> {
    match h {
        HeartbeatMsg::Request(q) => seq![0u8] + le_bytes(q.round as u64),
        HeartbeatMsg::Reply(a) => seq![1u8] + (le_bytes(a.round as u64) + (enc_ballot(a.ballot) + seq![
            if a.quorum_connected {
                1u8
            } else {
                0u8
            },
        ])),
    }
}

fn write_heartbeat(out: &mut Vec<u8>, h: HeartbeatMsg)
    ensures
        final(out)@ == old(out)@ + enc_heartbeat(h),
{
    match h {
        HeartbeatMsg::Request(q) => {
            out.push(0u8);
            write_u64(out, q.round as u64);
        },
        HeartbeatMsg::Reply(a) => {
            out.push(1u8);
            write_u64(out, a.round as u64);
            write_ballot(out, a.ballot);
            out.push(
                if a.quorum_connected {
                    1u8
                } else {
                    0u8
                },
            );
        },
    }
    assert(out@ =~= old(out)@ + enc_heartbeat(h));
}

fn read_heartbeat(buf: &Vec<u8>, pos: usize) -> (r: Option<(HeartbeatMsg, usize)>)
    ensures
        forall|h: HeartbeatMsg| #[trigger] at(buf@, pos as int, enc_heartbeat(h)) ==> (r matches Some((v, end))
            && v == h && end == pos + enc_heartbeat(h).len()),
        r matches Some((v, end)) ==> at(buf@, pos as int, enc_heartbeat(v)) && end == pos + enc_heartbeat(v).len(),
{
    proof {
        assert forall|h: HeartbeatMsg| #[trigger] at(buf@, pos as int, enc_heartbeat(h)) implies (h matches HeartbeatMsg::Request(q)
            && at(buf@, pos as int, seq![0u8]) && at(buf@, pos + 1, le_bytes(q.round as u64))) || (h matches HeartbeatMsg::Reply(a)
            && at(buf@, pos as int, seq![1u8]) && at(buf@, pos + 1, le_bytes(a.round as u64)) && at(buf@, pos + 9, enc_ballot(a.ballot))
            && at(buf@, pos + 25, seq![if a.quorum_connected { 1u8 } else { 0u8 }])) by {
            match h {
                HeartbeatMsg::Request(q) => lemma_at_split(buf@, pos as int, seq![0u8], le_bytes(q.round as u64)),
                HeartbeatMsg::Reply(a) => {
                    let c = seq![if a.quorum_connected { 1u8 } else { 0u8 }];
                    lemma_at_split(buf@, pos as int, seq![1u8], le_bytes(a.round as u64) + (enc_ballot(a.ballot) + c));
                    lemma_at_split(buf@, pos + 1, le_bytes(a.round as u64), enc_ballot(a.ballot) + c);
                    lemma_at_split(buf@, pos + 9, enc_ballot(a.ballot), c);
                },
            }
        }
    }
    let (t, p1) = match read_tag(buf, pos) {
        Some(x) => x,
        None => return None,
    };
    let (round, p2) = match read_u64(buf, p1) {
        Some(x) => x,
        None => return None,
    };
    if round > u32::MAX as u64 {
        return None;
    }
    if t == 0 {
        proof {
            lemma_at_join(buf@, pos as int, seq![t], le_bytes(round));
        }
        return Some((HeartbeatMsg::Request(HeartbeatRequest { round: round as u32 }), p2));
    }
    if t != 1 {
        return None;
    }
    let (ballot, p3) = match read_ballot(buf, p2) {
        Some(x) => x,
        None => return None,
    };
    let (q, p4) = match read_tag(buf, p3) {
        Some(x) => x,
        None => return None,
    };
    if q > 1 {
        return None;
    }
    let h = HeartbeatMsg::Reply(HeartbeatReply { round: round as u32, ballot, quorum_connected: q == 1 });
    proof {
        assert(seq![q] == seq![if q == 1 { 1u8 } else { 0u8 }]);
        lemma_at_join(buf@, p2 as int, enc_ballot(ballot), seq![q]);
        lemma_at_join(buf@, p1 as int, le_bytes(round), enc_ballot(ballot) + seq![q]);
        lemma_at_join(buf@, pos as int, seq![t], le_bytes(round) + (enc_ballot(ballot) + seq![q]));
    }
    Some((h, p4))
}

/// A message: a tag for its protocol, its sender, its receiver, then its payload.
pub open spec fn enc_message(m: Message) -> Seq<u8> {
    match m {
        Message::SequencePaxos(p) => seq![0u8] + (le_bytes(p.from) + (le_bytes(p.to) + enc_paxos_msg(p.msg))),
        Message::BLE(b) => seq![1u8] + (le_bytes(b.from) + (le_bytes(b.to) + enc_heartbeat(b.msg))),
    }
}

/// Equality of messages, byte strings compared by content.
pub open spec fn same_message(a: Message, b: Message) -> bool {
    match (a, b) {
        (Message::SequencePaxos(x), Message::SequencePaxos(y)) => x.from == y.from && x.to == y.to
            && same_paxos_msg(x.msg, y.msg),
        (Message::BLE(x), Message::BLE(y)) => x == y,
        _ => false,
    }
}

/// Encodes a message into its self-describing byte form.
pub fn encode(m: &Message) -> (r: Vec<u8>)
    ensures
        r@ == enc_message(*m),
{
    let mut out: Vec<u8> = Vec::new();
    match m {
        Message::SequencePaxos(p) => {
            out.push(0u8);
            write_u64(&mut out, p.from);
            write_u64(&mut out, p.to);
            write_paxos_msg(&mut out, &p.msg);
        },
        Message::BLE(b) => {
            out.push(1u8);
            write_u64(&mut out, b.from);
            write_u64(&mut out, b.to);
            write_heartbeat(&mut out, b.msg);
        },
    }
    assert(out@ =~= enc_message(*m));
    out
}

fn read_message(buf: &Vec<u8>, pos: usize) -> (r: Option<(Message, usize)>)
    ensures
        forall|m: Message| #[trigger] at(buf@, pos as int, enc_message(m)) ==> (r matches Some((v, end))
            && same_message(v, m) && end == pos + enc_message(m).len()),
        r matches Some((v, end)) ==> at(buf@, pos as int, enc_message(v)) && end == pos + enc_message(v).len(),
{
    proof {
        assert forall|m: Message| #[trigger] at(buf@, pos as int, enc_message(m)) implies (m matches Message::SequencePaxos(p)
            && at(buf@, pos as int, seq![0u8]) && at(buf@, pos + 1, le_bytes(p.from)) && at(buf@, pos + 9, le_bytes(p.to))
            && at(buf@, pos + 17, enc_paxos_msg(p.msg))) || (m matches Message::BLE(b) && at(buf@, pos as int, seq![1u8])
            && at(buf@, pos + 1, le_bytes(b.from)) && at(buf@, pos + 9, le_bytes(b.to)) && at(buf@, pos + 17, enc_heartbeat(b.msg))) by {
            match m {
                Message::SequencePaxos(p) => {
                    lemma_at_split(buf@, pos as int, seq![0u8], le_bytes(p.from) + (le_bytes(p.to) + enc_paxos_msg(p.msg)));
                    lemma_at_split(buf@, pos + 1, le_bytes(p.from), le_bytes(p.to) + enc_paxos_msg(p.msg));
                    lemma_at_split(buf@, pos + 9, le_bytes(p.to), enc_paxos_msg(p.msg));
                },
                Message::BLE(b) => {
                    lemma_at_split(buf@, pos as int, seq![1u8], le_bytes(b.from) + (le_bytes(b.to) + enc_heartbeat(b.msg)));
                    lemma_at_split(buf@, pos + 1, le_bytes(b.from), le_bytes(b.to) + enc_heartbeat(b.msg));
                    lemma_at_split(buf@, pos + 9, le_bytes(b.to), enc_heartbeat(b.msg));
                },
            }
        }
    }
    let (t, p1) = match read_tag(buf, pos) {
        Some(x) => x,
        None => return None,
    };
    let (from, p2) = match read_u64(buf, p1) {
        Some(x) => x,
        None => return None,
    };
    let (to, p3) = match read_u64(buf, p2) {
        Some(x) => x,
        None => return None,
    };
    if t == 0 {
        match read_paxos_msg(buf, p3) {
            Some((msg, end)) => {
                proof {
                    lemma_at_join(buf@, p2 as int, le_bytes(to), enc_paxos_msg(msg));
                    lemma_at_join(buf@, p1 as int, le_bytes(from), le_bytes(to) + enc_paxos_msg(msg));
                    lemma_at_join(buf@, pos as int, seq![t], le_bytes(from) + (le_bytes(to) + enc_paxos_msg(msg)));
                }
                Some((Message::SequencePaxos(PaxosMessage { from, to, msg }), end))
            },
            None => None,
        }
    } else if t == 1 {
        match read_heartbeat(buf, p3) {
            Some((msg, end)) => {
                proof {
                    lemma_at_join(buf@, p2 as int, le_bytes(to), enc_heartbeat(msg));
                    lemma_at_join(buf@, p1 as int, le_bytes(from), le_bytes(to) + enc_heartbeat(msg));
                    lemma_at_join(buf@, pos as int, seq![t], le_bytes(from) + (le_bytes(to) + enc_heartbeat(msg)));
                }
                Some((Message::BLE(BLEMessage { from, to, msg }), end))
            },
            None => None,
        }
    } else {
        None
    }
}

/// Decodes a message from exactly the bytes of `buf`. Decoding the encoding
/// of any message gives that message back: the same envelope, the same
/// fields, byte strings with the same content. Any other input, bytes left
/// over after a whole message included, is refused.
pub fn decode(buf: &Vec<u8>) -> (r: Option<Message>)
    ensures
        forall|m: Message| #[trigger] enc_message(m) == buf@ ==> (r matches Some(d) && same_message(d, m)),
        r matches Some(d) ==> enc_message(d) == buf@,
{
    proof {
        assert forall|m: Message| #[trigger] enc_message(m) == buf@ implies at(buf@, 0, enc_message(m)) by {
            assert(buf@.subrange(0, buf@.len() as int) =~= buf@);
        }
    }
    match read_message(buf, 0) {
        Some((m, end)) => {
            if end == buf.len() {
                proof {
                    assert(buf@.subrange(0, buf@.len() as int) =~= buf@);
                }
                Some(m)
            } else {
                None
            }
        },
        None => None,
    }
}

/// Encodes a message as one length-prefixed frame.
pub fn encode_frame(m: &Message) -> (r: Vec<u8>)
    ensures
        r@ == framed(enc_message(*m)),
{
    let payload = encode(m);
    frame(&payload)
}

/// Decodes the message in the first frame of `buf`, with the number of bytes
/// the frame took. Nothing comes out while the frame is incomplete, nor when
/// its payload is not the encoding of a message; the frame of any message,
/// whatever follows it, gives that message back.
pub fn decode_frame(buf: &Vec<u8>) -> (r: Option<(Message, usize)>)
    ensures
        first_frame(buf@) is None ==> r is None,
        forall|m: Message, rest: Seq<u8>| #[trigger] (framed(enc_message(m)) + rest) == buf@ ==> (
        r matches Some((d, used)) && same_message(d, m) && used == 8 + enc_message(m).len()),
        r matches Some((d, used)) ==> first_frame(buf@) == Some((enc_message(d), used as nat)),
{
    proof {
        assert forall|m: Message, rest: Seq<u8>| #[trigger] (framed(enc_message(m)) + rest) == buf@ implies first_frame(buf@)
            == Some((enc_message(m), (8 + enc_message(m).len()) as nat)) by {
            assert(buf@.len() == buf.len());
            assert((framed(enc_message(m)) + rest).len() >= enc_message(m).len());
            lemma_frame_round_trip(enc_message(m), rest);
        }
    }
    match parse_frame(buf) {
        Some((payload, used)) => match decode(&payload) {
            Some(m) => Some((m, used)),
            None => None,
        },
        None => None,
    }
}

} // verus!
