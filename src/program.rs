//! The three entry points of the store: initialise, append, vote.
//!
//! Each takes a descriptor of what the host grants for the call (the
//! writable account region and the caller's identity), decodes the region,
//! computes the new store and writes it back only when everything succeeded.
use vstd::prelude::*;
use crate::account::{
    appended, empty_model, voted, AccountModel, BaseAccount, Identity, ItemStruct, StoreError,
};
use crate::buffer::{overwrite, AccountBuffer};
use crate::codec::{
    account_bytes, account_wf, decoded, deserialize, encodes_prefix, lemma_account_bytes_len,
    lemma_decoded_is, lemma_records_len_ignores_votes, serialize, HEADER_LEN,
};

verus! {

/// What `start_stuff_off` needs: the freshly allocated account region and
/// the caller who pays for it.
pub struct StartStuffOff {
    pub base_account: AccountBuffer,
    pub user: Identity,
}

/// What `add_gif` needs: the account region and the caller, who becomes the
/// owner of the new record.
pub struct AddGif {
    pub base_account: AccountBuffer,
    pub user: Identity,
}

/// What `update_item` needs: the account region and the caller. The caller
/// is not checked against the record's owner: anyone may vote.
pub struct UpdateItem {
    pub base_account: AccountBuffer,
    pub user: Identity,
}

/// A store written over the start of a region is the store the region holds.
pub proof fn lemma_overwrite_decodes(buf: Seq<u8>, a: AccountModel)
    requires
        account_wf(a),
        account_bytes(a).len() <= buf.len(),
    ensures
        decoded(overwrite(buf, account_bytes(a))) == Some(a),
        overwrite(buf, account_bytes(a)).len() == buf.len(),
{
    let w = overwrite(buf, account_bytes(a));
    assert(w.subrange(0, account_bytes(a).len() as int) =~= account_bytes(a));
    assert(encodes_prefix(w, a));
    lemma_decoded_is(w, a);
}

/// Resets the region to the empty store, whatever it held before.
/// Fails with `CapacityError`, changing nothing, when the region is shorter
/// than the empty store's header.
pub fn start_stuff_off(ctx: &mut StartStuffOff) -> (r: Result<(), StoreError>)
    ensures
        final(ctx).user == old(ctx).user,
        old(ctx).base_account@.len() >= HEADER_LEN ==> {
            &&& r is Ok
            &&& final(ctx).base_account@ == overwrite(
                old(ctx).base_account@,
                account_bytes(empty_model()),
            )
            &&& decoded(final(ctx).base_account@) == Some(empty_model())
        },
        old(ctx).base_account@.len() < HEADER_LEN ==> {
            &&& r == Err::<(), StoreError>(StoreError::CapacityError)
            &&& final(ctx).base_account@ == old(ctx).base_account@
        },
{
    let acc = BaseAccount { total_gifs: 0, gif_list: Vec::new() };
    proof {
        assert(acc@.records =~= empty_model().records);
        lemma_account_bytes_len(acc@);
        assert(account_bytes(empty_model()).len() == HEADER_LEN);
    }
    let bytes = serialize(&acc);
    let r = ctx.base_account.write_prefix(bytes.as_slice());
    proof {
        if old(ctx).base_account@.len() >= HEADER_LEN {
            lemma_overwrite_decodes(old(ctx).base_account@, empty_model());
        }
    }
    r
}

/// Appends a record of `gif_link`, owned by the caller, with a zero tally.
///
/// Fails with `DeserializationError` when the region holds no store, and
/// with `CapacityError` when the store with the new record could not be
/// written in the region; in both cases the region is left unchanged.
pub fn add_gif(ctx: &mut AddGif, gif_link: String) -> (r: Result<(), StoreError>)
    ensures
        final(ctx).user == old(ctx).user,
        final(ctx).base_account@.len() == old(ctx).base_account@.len(),
        match decoded(old(ctx).base_account@) {
            None => r == Err::<(), StoreError>(StoreError::DeserializationError)
                && final(ctx).base_account@ == old(ctx).base_account@,
            Some(a) => {
                let b = appended(a, gif_link@, old(ctx).user@);
                if account_wf(b) && account_bytes(b).len() <= old(ctx).base_account@.len() {
                    &&& r is Ok
                    &&& final(ctx).base_account@ == overwrite(
                        old(ctx).base_account@,
                        account_bytes(b),
                    )
                    &&& decoded(final(ctx).base_account@) == Some(b)
                } else {
                    &&& r == Err::<(), StoreError>(StoreError::CapacityError)
                    &&& final(ctx).base_account@ == old(ctx).base_account@
                }
            },
        },
{
    let mut acc = match deserialize(ctx.base_account.as_slice()) {
        Ok(acc) => acc,
        Err(e) => return Err(e),
    };
    let ghost a = acc@;
    let ghost b = appended(a, gif_link@, ctx.user@);
    let link_len = gif_link.as_str().as_bytes().len();
    proof {
        assert(link_len == vstd::utf8::encode_utf8(gif_link@).len());
    }
    if acc.gif_list.len() >= 0xffff_ffffusize || link_len > 0xffff_ffffusize {
        proof {
            assert(!account_wf(b)) by {
                if account_wf(b) {
                    assert(crate::codec::item_wf(b.records[a.records.len() as int]));
                }
            }
        }
        return Err(StoreError::CapacityError);
    }
    let item = ItemStruct { gif_link, user_address: ctx.user, vote: 0 };
    acc.gif_list.push(item);
    acc.total_gifs = acc.total_gifs + 1;
    proof {
        assert(acc@.records =~= b.records);
        assert(acc@ == b);
        assert(account_wf(b)) by {
            assert forall|i: int| 0 <= i < b.records.len() implies #[trigger]
                crate::codec::item_wf(b.records[i]) by {
                if i < a.records.len() {
                    assert(b.records[i] == a.records[i]);
                } else {
                    assert(b.records[i].owner == old(ctx).user.bytes@);
                    assert(old(ctx).user.bytes@.len() == 32);
                }
            }
        }
    }
    let bytes = serialize(&acc);
    let r = ctx.base_account.write_prefix(bytes.as_slice());
    proof {
        if account_bytes(b).len() <= old(ctx).base_account@.len() {
            lemma_overwrite_decodes(old(ctx).base_account@, b);
        }
    }
    r
}

/// Adds `vote` to the tally of record `gif_index`, wrapping around at the
/// bounds of `i32`. Any caller may vote on any record.
///
/// Fails with `DeserializationError` when the region holds no store, and
/// with `IndexOutOfRange` when `gif_index` is not below the record count; in
/// both cases the region is left unchanged.
pub fn update_item(ctx: &mut UpdateItem, gif_index: u32, vote: i32) -> (r: Result<
    (),
    StoreError,
>)
    ensures
        final(ctx).user == old(ctx).user,
        final(ctx).base_account@.len() == old(ctx).base_account@.len(),
        match decoded(old(ctx).base_account@) {
            None => r == Err::<(), StoreError>(StoreError::DeserializationError)
                && final(ctx).base_account@ == old(ctx).base_account@,
            Some(a) => if gif_index < a.records.len() {
                let b = voted(a, gif_index as int, vote);
                &&& r is Ok
                &&& final(ctx).base_account@ == overwrite(
                    old(ctx).base_account@,
                    account_bytes(b),
                )
                &&& decoded(final(ctx).base_account@) == Some(b)
            } else {
                &&& r == Err::<(), StoreError>(StoreError::IndexOutOfRange)
                &&& final(ctx).base_account@ == old(ctx).base_account@
            },
        },
{
    let mut acc = match deserialize(ctx.base_account.as_slice()) {
        Ok(acc) => acc,
        Err(e) => return Err(e),
    };
    let ghost a = acc@;
    let idx = gif_index as usize;
    if idx >= acc.gif_list.len() {
        return Err(StoreError::IndexOutOfRange);
    }
    let ghost b = voted(a, idx as int, vote);
    let mut item = acc.gif_list.remove(idx);
    item.vote = item.vote.wrapping_add(vote);
    acc.gif_list.insert(idx, item);
    proof {
        assert(acc@.records =~= b.records);
        assert(acc@ == b);
        assert(account_wf(b)) by {
            assert forall|i: int| 0 <= i < b.records.len() implies #[trigger]
                crate::codec::item_wf(b.records[i]) by {
                assert(crate::codec::item_wf(a.records[i]));
            }
        }
        lemma_records_len_ignores_votes(a.records, b.records);
        lemma_account_bytes_len(a);
        lemma_account_bytes_len(b);
    }
    let bytes = serialize(&acc);
    let r = ctx.base_account.write_prefix(bytes.as_slice());
    proof {
        lemma_overwrite_decodes(old(ctx).base_account@, b);
    }
    r
}

} // verus!
