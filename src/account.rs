//! The records and the store, with their mathematical models.
use vstd::prelude::*;

verus! {

/// The opaque identity of a caller, as the 32 bytes of its public key.
#[derive(Clone, Copy, Debug, PartialEq, Eq)]
pub struct Identity {
    pub bytes: [u8; 32],
}

/// One stored link: who added it and its vote tally.
#[derive(Clone, Debug)]
pub struct ItemStruct {
    pub gif_link: String,
    pub user_address: Identity,
    pub vote: i32,
}

/// The whole store: a record count and the records in append order.
#[derive(Clone, Debug)]
pub struct BaseAccount {
    pub total_gifs: u64,
    pub gif_list: Vec<ItemStruct>,
}

/// Why an operation on the store was refused.
#[derive(Clone, Copy, Debug, PartialEq, Eq)]
pub enum StoreError {
    /// The serialised result would not fit in the buffer.
    CapacityError,
    /// A vote was addressed to an index at or past the record count.
    IndexOutOfRange,
    /// The buffer does not hold a store in the canonical layout.
    DeserializationError,
}

/// The mathematical value of a record.
pub struct ItemModel {
    pub link: Seq<char>,
    pub owner: Seq<u8>,
    pub vote: i32,
}

/// The mathematical value of a store.
pub struct AccountModel {
    pub count: u64,
    pub records: Seq<ItemModel>,
}

impl Identity {
    pub open spec fn view(&self) -> Seq<u8> {
        self.bytes@
    }
}

impl ItemStruct {
    pub open spec fn view(&self) -> ItemModel {
        ItemModel { link: self.gif_link@, owner: self.user_address.bytes@, vote: self.vote }
    }
}

impl BaseAccount {
    pub open spec fn view(&self) -> AccountModel {
        AccountModel {
            count: self.total_gifs,
            records: self.gif_list@.map_values(|it: ItemStruct| it@),
        }
    }
}

/// The empty store.
pub open spec fn empty_model() -> AccountModel {
    AccountModel { count: 0, records: Seq::empty() }
}

/// The store after appending `link` owned by `owner`, with a zero tally.
pub open spec fn appended(a: AccountModel, link: Seq<char>, owner: Seq<u8>) -> AccountModel {
    AccountModel {
        count: (a.count + 1) as u64,
        records: a.records.push(ItemModel { link, owner, vote: 0 }),
    }
}

/// The store after adding `delta` to the tally of record `index`, wrapping
/// around at the bounds of a 32-bit signed integer.
pub open spec fn voted(a: AccountModel, index: int, delta: i32) -> AccountModel {
    AccountModel {
        count: a.count,
        records: a.records.update(
            index,
            ItemModel {
                link: a.records[index].link,
                owner: a.records[index].owner,
                vote: a.records[index].vote.wrapping_add(delta),
            },
        ),
    }
}

/// Appending gives the new record the index that was the count, raises the
/// count by one, and keeps every earlier record at its index.
pub proof fn lemma_append_extends(a: AccountModel, link: Seq<char>, owner: Seq<u8>)
    requires
        crate::codec::account_wf(a),
    ensures
        appended(a, link, owner).count == a.count + 1,
        appended(a, link, owner).records.len() == appended(a, link, owner).count,
        appended(a, link, owner).records[a.count as int] == (ItemModel { link, owner, vote: 0 }),
        forall|i: int|
            0 <= i < a.records.len() ==> #[trigger] appended(a, link, owner).records[i]
                == a.records[i],
{
}

/// A vote changes the tally of the addressed record and nothing else: every
/// link and owner, and every other tally, stay as they were.
pub proof fn lemma_vote_isolation(a: AccountModel, index: int, delta: i32)
    requires
        0 <= index < a.records.len(),
    ensures
        voted(a, index, delta).count == a.count,
        voted(a, index, delta).records.len() == a.records.len(),
        voted(a, index, delta).records[index].vote == a.records[index].vote.wrapping_add(delta),
        forall|i: int|
            0 <= i < a.records.len() ==> {
                &&& #[trigger] voted(a, index, delta).records[i].link == a.records[i].link
                &&& voted(a, index, delta).records[i].owner == a.records[i].owner
                &&& i != index ==> voted(a, index, delta).records[i].vote == a.records[i].vote
            },
{
}

} // verus!
