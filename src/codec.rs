//! The canonical byte layout of a store.
//!
//! A store is written as its count (`u64`, little endian), the number of
//! records (`u32`), then each record in order: the link's UTF-8 length
//! (`u32`), the link's bytes, the owner's 32 bytes, and the vote (`i32`, two's
//! complement). All integers are little endian.
use vstd::prelude::*;
use vstd::bytes::*;
use vstd::utf8::*;
use vstd::slice::{slice_subrange, slice_to_vec};
use crate::account::{AccountModel, BaseAccount, Identity, ItemModel, ItemStruct, StoreError};

verus! {

/// The two's complement bit pattern of a vote.
pub open spec fn vote_bits(v: i32) -> u32 {
    if v >= 0 {
        v as u32
    } else {
        (v + 0x1_0000_0000) as u32
    }
}

/// The vote whose two's complement bit pattern is `x`.
pub open spec fn vote_of_bits(x: u32) -> i32 {
    if x < 0x8000_0000 {
        x as i32
    } else {
        (x - 0x1_0000_0000) as i32
    }
}

pub proof fn lemma_vote_bits_round_trip(v: i32)
    ensures
        vote_of_bits(vote_bits(v)) == v,
{
}

pub proof fn lemma_vote_of_bits_round_trip(x: u32)
    ensures
        vote_bits(vote_of_bits(x)) == x,
{
}

fn vote_to_bits(v: i32) -> (r: u32)
    ensures
        r == vote_bits(v),
{
    if v >= 0 {
        v as u32
    } else {
        ((v as i64) + 0x1_0000_0000i64) as u32
    }
}

fn vote_from_bits(x: u32) -> (r: i32)
    ensures
        r == vote_of_bits(x),
{
    if x < 0x8000_0000 {
        x as i32
    } else {
        ((x as i64) - 0x1_0000_0000i64) as i32
    }
}


/// Length in bytes of the fixed header: the count and the number of records.
pub const HEADER_LEN: usize = 12;

/// A record that the layout can hold: its link's UTF-8 length fits in a
/// `u32` and its owner has 32 bytes.
pub open spec fn item_wf(m: ItemModel) -> bool {
    &&& encode_utf8(m.link).len() <= u32::MAX
    &&& m.owner.len() == 32
}

/// A store that the layout can hold: its count equals its number of records,
/// which fits in a `u32`, and every record is well formed.
pub open spec fn account_wf(a: AccountModel) -> bool {
    &&& a.count == a.records.len()
    &&& a.records.len() <= u32::MAX
    &&& forall|i: int| 0 <= i < a.records.len() ==> #[trigger] item_wf(a.records[i])
}

/// The bytes of one record.
pub open spec fn item_bytes(m: ItemModel) -> Seq<u8> {
    spec_u32_to_le_bytes(encode_utf8(m.link).len() as u32) + encode_utf8(m.link) + m.owner
        + spec_u32_to_le_bytes(vote_bits(m.vote))
}

/// The bytes of a sequence of records, one after the other.
pub open spec fn records_bytes(rs: Seq<ItemModel>) -> Seq<u8>
    decreases rs.len(),
{
    if rs.len() == 0 {
        Seq::empty()
    } else {
        records_bytes(rs.drop_last()) + item_bytes(rs.last())
    }
}

/// The canonical bytes of a store.
pub open spec fn account_bytes(a: AccountModel) -> Seq<u8> {
    spec_u64_to_le_bytes(a.count) + spec_u32_to_le_bytes(a.records.len() as u32) + records_bytes(
        a.records,
    )
}

/// `buf` begins with the canonical bytes of the well-formed store `a`.
pub open spec fn encodes_prefix(buf: Seq<u8>, a: AccountModel) -> bool {
    &&& account_wf(a)
    &&& account_bytes(a).len() <= buf.len()
    &&& buf.subrange(0, account_bytes(a).len() as int) == account_bytes(a)
}

/// The store that `buf` holds, if it holds one.
pub open spec fn decoded(buf: Seq<u8>) -> Option<AccountModel> {
    if exists|a: AccountModel| encodes_prefix(buf, a) {
        Some(choose|a: AccountModel| encodes_prefix(buf, a))
    } else {
        None
    }
}

/// The well-formed record `m` is written in `buf` starting at `pos`.
pub open spec fn item_at(buf: Seq<u8>, pos: int, m: ItemModel) -> bool {
    &&& item_wf(m)
    &&& 0 <= pos
    &&& pos + item_bytes(m).len() <= buf.len()
    &&& buf.subrange(pos, pos + item_bytes(m).len()) == item_bytes(m)
}

pub proof fn lemma_item_bytes_len(m: ItemModel)
    ensures
        item_bytes(m).len() == encode_utf8(m.link).len() + m.owner.len() + 8,
{
    lemma_auto_spec_u32_to_from_le_bytes();
}

pub proof fn lemma_account_bytes_len(a: AccountModel)
    ensures
        account_bytes(a).len() == HEADER_LEN + records_bytes(a.records).len(),
{
    lemma_auto_spec_u32_to_from_le_bytes();
    lemma_auto_spec_u64_to_from_le_bytes();
}

/// Two well-formed records written at the same place are the same record.
pub proof fn lemma_item_unique(buf: Seq<u8>, pos: int, m1: ItemModel, m2: ItemModel)
    requires
        item_at(buf, pos, m1),
        item_at(buf, pos, m2),
    ensures
        m1 == m2,
{
    lemma_auto_spec_u32_to_from_le_bytes();
    broadcast use encode_utf8_decode_utf8;

    let b1 = item_bytes(m1);
    let b2 = item_bytes(m2);
    let l1 = encode_utf8(m1.link).len() as int;
    let l2 = encode_utf8(m2.link).len() as int;
    assert(b1.subrange(0, 4) =~= spec_u32_to_le_bytes(l1 as u32));
    assert(b2.subrange(0, 4) =~= spec_u32_to_le_bytes(l2 as u32));
    assert(b1.subrange(0, 4) =~= buf.subrange(pos, pos + 4));
    assert(b2.subrange(0, 4) =~= buf.subrange(pos, pos + 4));
    assert(spec_u32_from_le_bytes(spec_u32_to_le_bytes(l1 as u32)) == l1 as u32);
    assert(spec_u32_from_le_bytes(spec_u32_to_le_bytes(l2 as u32)) == l2 as u32);
    assert(l1 == l2);
    assert(b1.subrange(4, 4 + l1) =~= encode_utf8(m1.link));
    assert(b2.subrange(4, 4 + l1) =~= encode_utf8(m2.link));
    assert(b1.subrange(4, 4 + l1) =~= buf.subrange(pos + 4, pos + 4 + l1));
    assert(b2.subrange(4, 4 + l1) =~= buf.subrange(pos + 4, pos + 4 + l1));
    assert(encode_utf8(m1.link) == encode_utf8(m2.link));
    assert(decode_utf8(encode_utf8(m1.link)) == m1.link);
    assert(decode_utf8(encode_utf8(m2.link)) == m2.link);
    assert(m1.link == m2.link);
    assert(b1.subrange(4 + l1, 36 + l1) =~= m1.owner);
    assert(b2.subrange(4 + l1, 36 + l1) =~= m2.owner);
    assert(b1.subrange(4 + l1, 36 + l1) =~= buf.subrange(pos + 4 + l1, pos + 36 + l1));
    assert(b2.subrange(4 + l1, 36 + l1) =~= buf.subrange(pos + 4 + l1, pos + 36 + l1));
    assert(b1.subrange(36 + l1, 40 + l1) =~= spec_u32_to_le_bytes(vote_bits(m1.vote)));
    assert(b2.subrange(36 + l1, 40 + l1) =~= spec_u32_to_le_bytes(vote_bits(m2.vote)));
    assert(b1.subrange(36 + l1, 40 + l1) =~= buf.subrange(pos + 36 + l1, pos + 40 + l1));
    assert(b2.subrange(36 + l1, 40 + l1) =~= buf.subrange(pos + 36 + l1, pos + 40 + l1));
    assert(spec_u32_from_le_bytes(spec_u32_to_le_bytes(vote_bits(m1.vote))) == vote_bits(m1.vote));
    assert(spec_u32_from_le_bytes(spec_u32_to_le_bytes(vote_bits(m2.vote))) == vote_bits(m2.vote));
    lemma_vote_bits_round_trip(m1.vote);
    lemma_vote_bits_round_trip(m2.vote);
}

/// The bytes of the first `k` records begin the bytes of all of them.
pub proof fn lemma_records_prefix(rs: Seq<ItemModel>, k: int)
    requires
        0 <= k <= rs.len(),
    ensures
        records_bytes(rs.take(k)).len() <= records_bytes(rs).len(),
        records_bytes(rs).subrange(0, records_bytes(rs.take(k)).len() as int) == records_bytes(
            rs.take(k),
        ),
    decreases rs.len(),
{
    if k == rs.len() {
        assert(rs.take(k) =~= rs);
        assert(records_bytes(rs).subrange(0, records_bytes(rs).len() as int) =~= records_bytes(rs));
    } else {
        let init = rs.drop_last();
        lemma_records_prefix(init, k);
        assert(init.take(k) =~= rs.take(k));
        assert(records_bytes(rs).subrange(0, records_bytes(rs.take(k)).len() as int)
            =~= records_bytes(init).subrange(0, records_bytes(rs.take(k)).len() as int));
    }
}

/// One more record extends the bytes of the records before it.
pub proof fn lemma_records_take_next(rs: Seq<ItemModel>, k: int)
    requires
        0 <= k < rs.len(),
    ensures
        records_bytes(rs.take(k + 1)) == records_bytes(rs.take(k)) + item_bytes(rs[k]),
{
    assert(rs.take(k + 1).drop_last() =~= rs.take(k));
}

/// Where `a` is written in `buf`, its record `k` stands right after the ones
/// before it.
pub proof fn lemma_record_in_place(buf: Seq<u8>, a: AccountModel, k: int)
    requires
        encodes_prefix(buf, a),
        0 <= k < a.records.len(),
    ensures
        item_at(buf, HEADER_LEN + records_bytes(a.records.take(k)).len(), a.records[k]),
{
    let rs = a.records;
    lemma_account_bytes_len(a);
    lemma_records_prefix(rs, k + 1);
    lemma_records_take_next(rs, k);
    let whole = account_bytes(a);
    let p = HEADER_LEN + records_bytes(rs.take(k)).len() as int;
    let q = p + item_bytes(rs[k]).len() as int;
    lemma_auto_spec_u32_to_from_le_bytes();
    lemma_auto_spec_u64_to_from_le_bytes();
    let all = records_bytes(rs);
    let upto = records_bytes(rs.take(k + 1));
    assert(whole.subrange(HEADER_LEN as int, whole.len() as int) =~= all);
    assert(q - HEADER_LEN == upto.len());
    assert(all.subrange(0, upto.len() as int) == upto);
    assert(upto.subrange(p - HEADER_LEN, q - HEADER_LEN) =~= item_bytes(rs[k]));
    assert(all.subrange(p - HEADER_LEN, q - HEADER_LEN) =~= upto.subrange(
        p - HEADER_LEN,
        q - HEADER_LEN,
    ));
    assert(whole.subrange(p, q) =~= all.subrange(p - HEADER_LEN, q - HEADER_LEN));
    assert(buf.subrange(0, whole.len() as int) == whole);
    assert(buf.subrange(p, q) =~= whole.subrange(p, q));
    assert(item_wf(rs[k]));
}

/// Two stores written in one buffer, with as many records, agree on their
/// first `k` records.
proof fn lemma_records_agree(buf: Seq<u8>, a1: AccountModel, a2: AccountModel, k: int)
    requires
        encodes_prefix(buf, a1),
        encodes_prefix(buf, a2),
        a1.records.len() == a2.records.len(),
        0 <= k <= a1.records.len(),
    ensures
        a1.records.take(k) == a2.records.take(k),
    decreases k,
{
    if k == 0 {
        assert(a1.records.take(k) =~= a2.records.take(k));
    } else {
        let j = k - 1;
        lemma_records_agree(buf, a1, a2, j);
        lemma_record_in_place(buf, a1, j);
        lemma_record_in_place(buf, a2, j);
        lemma_item_unique(
            buf,
            HEADER_LEN + records_bytes(a1.records.take(j)).len(),
            a1.records[j],
            a2.records[j],
        );
        assert(a1.records.take(k) =~= a1.records.take(j).push(a1.records[j]));
        assert(a2.records.take(k) =~= a2.records.take(j).push(a2.records[j]));
    }
}

/// A buffer holds at most one store.
pub proof fn lemma_decoded_unique(buf: Seq<u8>, a1: AccountModel, a2: AccountModel)
    requires
        encodes_prefix(buf, a1),
        encodes_prefix(buf, a2),
    ensures
        a1 == a2,
{
    lemma_header(buf, a1);
    lemma_header(buf, a2);
    let n = a1.records.len() as int;
    lemma_records_agree(buf, a1, a2, n);
    assert(a1.records.take(n) =~= a1.records);
    assert(a2.records.take(n) =~= a2.records);
}

/// A buffer that begins with the bytes of a well-formed store holds exactly
/// that store.
pub proof fn lemma_decoded_is(buf: Seq<u8>, a: AccountModel)
    requires
        encodes_prefix(buf, a),
    ensures
        decoded(buf) == Some(a),
{
    let c = choose|b: AccountModel| encodes_prefix(buf, b);
    lemma_decoded_unique(buf, a, c);
}

/// Records with the same links and owners take as many bytes, whatever
/// their votes.
pub proof fn lemma_records_len_ignores_votes(s1: Seq<ItemModel>, s2: Seq<ItemModel>)
    requires
        s1.len() == s2.len(),
        forall|i: int|
            0 <= i < s1.len() ==> s1[i].link == #[trigger] s2[i].link && s1[i].owner.len()
                == s2[i].owner.len(),
    ensures
        records_bytes(s1).len() == records_bytes(s2).len(),
    decreases s1.len(),
{
    if s1.len() > 0 {
        let t1 = s1.drop_last();
        let t2 = s2.drop_last();
        assert forall|i: int| 0 <= i < t1.len() implies t1[i].link == #[trigger] t2[i].link
            && t1[i].owner.len() == t2[i].owner.len() by {
            assert(s2[i].link == t2[i].link);
        }
        lemma_records_len_ignores_votes(t1, t2);
        lemma_item_bytes_len(s1.last());
        lemma_item_bytes_len(s2.last());
    }
}

/// Decoding then encoding gives back the buffer's bytes: whatever store a
/// buffer holds, its canonical bytes are exactly the start of the buffer.
pub proof fn lemma_round_trip(buf: Seq<u8>)
    requires
        decoded(buf) is Some,
    ensures
        account_wf(decoded(buf)->Some_0),
        account_bytes(decoded(buf)->Some_0) == buf.subrange(
            0,
            account_bytes(decoded(buf)->Some_0).len() as int,
        ),
{
}

/// Appending to a store takes more bytes than the store did, so a region
/// that the store fills exactly has no room for one more record.
pub proof fn lemma_append_grows(a: AccountModel, link: Seq<char>, owner: Seq<u8>)
    requires
        owner.len() == 32,
    ensures
        account_bytes(crate::account::appended(a, link, owner)).len() >= account_bytes(a).len()
            + 40,
{
    let b = crate::account::appended(a, link, owner);
    lemma_account_bytes_len(a);
    lemma_account_bytes_len(b);
    assert(b.records.drop_last() =~= a.records);
    lemma_item_bytes_len(b.records.last());
}

/// Appends the bytes of `src` to `out`.
fn push_all(out: &mut Vec<u8>, src: &[u8])
    ensures
        final(out)@ == old(out)@ + src@,
{
    let mut i: usize = 0;
    while i < src.len()
        invariant
            i <= src@.len(),
            out@ == old(out)@ + src@.subrange(0, i as int),
        decreases src@.len() - i,
    {
        out.push(src[i]);
        i += 1;
        proof {
            assert(src@.subrange(0, i as int) =~= src@.subrange(0, i - 1) + seq![src@[i - 1]]);
        }
    }
    proof {
        assert(src@.subrange(0, i as int) =~= src@);
    }
}

/// Appends the bytes of one record to `out`.
fn write_item(out: &mut Vec<u8>, it: &ItemStruct)
    requires
        item_wf(it@),
    ensures
        final(out)@ == old(out)@ + item_bytes(it@),
{
    let link = it.gif_link.as_str().as_bytes();
    let len_bytes = u32_to_le_bytes(link.len() as u32);
    push_all(out, len_bytes.as_slice());
    push_all(out, link);
    push_all(out, vstd::array::array_as_slice(&it.user_address.bytes));
    let vote_bytes = u32_to_le_bytes(vote_to_bits(it.vote));
    push_all(out, vote_bytes.as_slice());
    proof {
        assert(final(out)@ =~= old(out)@ + item_bytes(it@));
    }
}

/// Writes `acc` in the canonical layout.
pub fn serialize(acc: &BaseAccount) -> (r: Vec<u8>)
    requires
        account_wf(acc@),
    ensures
        r@ == account_bytes(acc@),
{
    let mut out = u64_to_le_bytes(acc.total_gifs);
    let n = acc.gif_list.len();
    let len_bytes = u32_to_le_bytes(n as u32);
    push_all(&mut out, len_bytes.as_slice());
    let ghost head = out@;
    let ghost recs = acc@.records;
    let mut i: usize = 0;
    while i < n
        invariant
            n == acc.gif_list@.len(),
            recs == acc@.records,
            account_wf(acc@),
            i <= n,
            out@ == head + records_bytes(recs.take(i as int)),
        decreases n - i,
    {
        proof {
            assert(recs[i as int] == acc.gif_list@[i as int]@);
            assert(item_wf(recs[i as int]));
        }
        write_item(&mut out, &acc.gif_list[i]);
        proof {
            assert(recs.take(i + 1).drop_last() =~= recs.take(i as int));
        }
        i += 1;
    }
    proof {
        assert(recs.take(n as int) =~= recs);
        assert(out@ =~= account_bytes(acc@));
    }
    out
}

/// The count and the number of records that a store written in `buf` has.
proof fn lemma_header(buf: Seq<u8>, a: AccountModel)
    requires
        encodes_prefix(buf, a),
    ensures
        buf.len() >= HEADER_LEN,
        a.count == spec_u64_from_le_bytes(buf.subrange(0, 8)),
        a.records.len() == spec_u32_from_le_bytes(buf.subrange(8, 12)),
{
    lemma_auto_spec_u32_to_from_le_bytes();
    lemma_auto_spec_u64_to_from_le_bytes();
    lemma_account_bytes_len(a);
    let w = account_bytes(a);
    assert(w.subrange(0, 8) =~= spec_u64_to_le_bytes(a.count));
    assert(w.subrange(8, 12) =~= spec_u32_to_le_bytes(a.records.len() as u32));
    assert(buf.subrange(0, 8) =~= w.subrange(0, 8));
    assert(buf.subrange(8, 12) =~= w.subrange(8, 12));
}

/// Relies on `String::from_utf8`: it accepts exactly the byte sequences that
/// are valid UTF-8, and the string it returns is made of those bytes.
#[verifier::external_body]
fn string_from_utf8(bytes: Vec<u8>) -> (r: Option<String>)
    ensures
        r is Some <==> valid_utf8(bytes@),
        r matches Some(s) ==> encode_utf8(s@) == bytes@,
{
    String::from_utf8(bytes).ok()
}

/// Reads the record written in `buf` at `pos`, and where it ends.
fn parse_item(buf: &[u8], pos: usize) -> (r: Option<(ItemStruct, usize)>)
    ensures
        match r {
            Some((it, end)) => item_at(buf@, pos as int, it@) && end == pos + item_bytes(it@).len(),
            None => forall|m: ItemModel| !item_at(buf@, pos as int, m),
        },
{
    broadcast use encode_utf8_valid_utf8;

    proof {
        lemma_auto_spec_u32_to_from_le_bytes();
    }
    let len = buf.len();
    if pos > len || len - pos < 4 {
        proof {
            assert forall|m: ItemModel| !item_at(buf@, pos as int, m) by {
                lemma_item_bytes_len(m);
            }
        }
        return None;
    }
    let head = slice_subrange(buf, pos, pos + 4);
    let l = u32_from_le_bytes(head) as usize;
    proof {
        assert forall|m: ItemModel| item_at(buf@, pos as int, m) implies encode_utf8(m.link).len()
            == l by {
            lemma_item_bytes_len(m);
            let b = item_bytes(m);
            assert(b.subrange(0, 4) =~= spec_u32_to_le_bytes(encode_utf8(m.link).len() as u32));
            assert(b.subrange(0, 4) =~= head@);
        }
    }
    if len - pos - 4 < l || len - pos - 4 - l < 36 {
        proof {
            assert forall|m: ItemModel| !item_at(buf@, pos as int, m) by {
                lemma_item_bytes_len(m);
            }
        }
        return None;
    }
    let link_start = pos + 4;
    let link_end = link_start + l;
    let link_bytes = slice_to_vec(slice_subrange(buf, link_start, link_end));
    let link = match string_from_utf8(link_bytes) {
        Some(s) => s,
        None => {
            proof {
                assert forall|m: ItemModel| !item_at(buf@, pos as int, m) by {
                    if item_at(buf@, pos as int, m) {
                        lemma_item_bytes_len(m);
                        let b = item_bytes(m);
                        assert(b.subrange(4, 4 + l) =~= encode_utf8(m.link));
                        assert(b.subrange(4, 4 + l) =~= link_bytes@);
                    }
                }
            }
            return None;
        },
    };
    let mut owner: [u8; 32] = [0u8; 32];
    let mut i: usize = 0;
    while i < 32
        invariant
            i <= 32,
            link_end + 36 <= len,
            len == buf@.len(),
            forall|j: int| 0 <= j < i ==> owner@[j] == buf@[link_end + j],
        decreases 32 - i,
    {
        owner[i] = buf[link_end + i];
        i += 1;
    }
    let vote_slice = slice_subrange(buf, link_end + 32, link_end + 36);
    let vote = vote_from_bits(u32_from_le_bytes(vote_slice));
    let it = ItemStruct { gif_link: link, user_address: Identity { bytes: owner }, vote };
    proof {
        lemma_item_bytes_len(it@);
        lemma_vote_of_bits_round_trip(spec_u32_from_le_bytes(vote_slice@));
        assert(owner@ =~= buf@.subrange(link_end as int, link_end + 32));
        assert(spec_u32_to_le_bytes(spec_u32_from_le_bytes(head@)) == head@);
        assert(spec_u32_to_le_bytes(spec_u32_from_le_bytes(vote_slice@)) == vote_slice@);
        assert(buf@.subrange(pos as int, link_end + 36) =~= item_bytes(it@));
    }
    Some((it, link_end + 36))
}

/// Reads the store that `buf` holds.
pub fn deserialize(buf: &[u8]) -> (r: Result<BaseAccount, StoreError>)
    ensures
        match r {
            Ok(acc) => encodes_prefix(buf@, acc@) && decoded(buf@) == Some(acc@),
            Err(e) => e == StoreError::DeserializationError && decoded(buf@) is None,
        },
{
    if buf.len() < HEADER_LEN {
        proof {
            assert forall|a: AccountModel| !encodes_prefix(buf@, a) by {
                lemma_account_bytes_len(a);
            }
        }
        return Err(StoreError::DeserializationError);
    }
    let count = u64_from_le_bytes(slice_subrange(buf, 0, 8));
    let n = u32_from_le_bytes(slice_subrange(buf, 8, 12));
    proof {
        assert forall|a: AccountModel| encodes_prefix(buf@, a) implies a.count == count
            && a.records.len() == n by {
            lemma_header(buf@, a);
        }
    }
    if count != n as u64 {
        return Err(StoreError::DeserializationError);
    }
    let n = n as usize;
    let mut list: Vec<ItemStruct> = Vec::new();
    let mut pos: usize = HEADER_LEN;
    let ghost mut recs: Seq<ItemModel> = Seq::empty();
    let mut i: usize = 0;
    proof {
        assert(buf@.subrange(HEADER_LEN as int, pos as int) =~= records_bytes(recs));
        assert forall|a: AccountModel| encodes_prefix(buf@, a) implies a.records.take(0) == recs by {
            assert(a.records.take(0) =~= recs);
        }
    }
    while i < n
        invariant
            n == count,
            n <= u32::MAX,
            i <= n,
            list@.map_values(|it: ItemStruct| it@) == recs,
            recs.len() == i,
            forall|j: int| 0 <= j < i ==> #[trigger] item_wf(recs[j]),
            pos == HEADER_LEN + records_bytes(recs).len(),
            pos <= buf@.len(),
            buf@.subrange(HEADER_LEN as int, pos as int) == records_bytes(recs),
            forall|a: AccountModel| #[trigger]
                encodes_prefix(buf@, a) ==> a.count == count && a.records.len() == n
                    && a.records.take(i as int) == recs,
        decreases n - i,
    {
        match parse_item(buf, pos) {
            None => {
                proof {
                    assert forall|a: AccountModel| !encodes_prefix(buf@, a) by {
                        if encodes_prefix(buf@, a) {
                            lemma_record_in_place(buf@, a, i as int);
                        }
                    }
                }
                return Err(StoreError::DeserializationError);
            },
            Some((it, end)) => {
                proof {
                    assert forall|a: AccountModel| #[trigger]
                        encodes_prefix(buf@, a) implies a.records.take(i + 1) == recs.push(
                        it@,
                    ) by {
                        lemma_record_in_place(buf@, a, i as int);
                        lemma_item_unique(buf@, pos as int, a.records[i as int], it@);
                        assert(a.records.take(i + 1) =~= a.records.take(i as int).push(
                            a.records[i as int],
                        ));
                    }
                    assert(recs.push(it@).drop_last() =~= recs);
                    assert(buf@.subrange(HEADER_LEN as int, end as int) =~= records_bytes(recs)
                        + buf@.subrange(pos as int, end as int));
                }
                list.push(it);
                proof {
                    assert(list@.map_values(|it: ItemStruct| it@) =~= recs.push(it@));
                    recs = recs.push(it@);
                }
                pos = end;
                i += 1;
            },
        }
    }
    let acc = BaseAccount { total_gifs: count, gif_list: list };
    proof {
        lemma_auto_spec_u32_to_from_le_bytes();
        lemma_auto_spec_u64_to_from_le_bytes();
        assert(acc@.records == recs);
        assert(buf@.subrange(0, 8) =~= spec_u64_to_le_bytes(count));
        assert(buf@.subrange(8, 12) =~= spec_u32_to_le_bytes(n as u32));
        assert(buf@.subrange(0, pos as int) =~= account_bytes(acc@));
        assert(encodes_prefix(buf@, acc@));
        lemma_decoded_is(buf@, acc@);
    }
    Ok(acc)
}

} // verus!
