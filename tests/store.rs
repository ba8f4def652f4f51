use myepicproject::codec::{deserialize, serialize};
use myepicproject::{
    add_gif, start_stuff_off, update_item, AccountBuffer, AddGif, BaseAccount, Identity,
    ItemStruct, StartStuffOff, StoreError, UpdateItem,
};

fn owner(b: u8) -> Identity {
    Identity { bytes: [b; 32] }
}

fn init(buf: AccountBuffer, user: Identity) -> (AccountBuffer, Result<(), StoreError>) {
    let mut ctx = StartStuffOff { base_account: buf, user };
    let r = start_stuff_off(&mut ctx);
    (ctx.base_account, r)
}

fn append(buf: AccountBuffer, link: &str, user: Identity) -> (AccountBuffer, Result<(), StoreError>) {
    let mut ctx = AddGif { base_account: buf, user };
    let r = add_gif(&mut ctx, link.to_string());
    (ctx.base_account, r)
}

fn vote(buf: AccountBuffer, index: u32, delta: i32) -> (AccountBuffer, Result<(), StoreError>) {
    let mut ctx = UpdateItem { base_account: buf, user: owner(9) };
    let r = update_item(&mut ctx, index, delta);
    (ctx.base_account, r)
}

fn read(buf: &AccountBuffer) -> BaseAccount {
    deserialize(buf.as_slice()).expect("the buffer holds a store")
}

fn fresh_store(capacity: usize) -> AccountBuffer {
    let (buf, r) = init(AccountBuffer::zeroed(capacity), owner(1));
    assert_eq!(r, Ok(()));
    buf
}

#[test]
fn scenario_two_links_two_votes() {
    let a = owner(0xaa);
    let b = owner(0xbb);
    let buf = fresh_store(9000);
    let (buf, r) = append(buf, "http://a", a);
    assert_eq!(r, Ok(()));
    let (buf, r) = append(buf, "http://b", b);
    assert_eq!(r, Ok(()));
    let (buf, r) = vote(buf, 0, 1);
    assert_eq!(r, Ok(()));
    let (buf, r) = vote(buf, 1, -1);
    assert_eq!(r, Ok(()));
    let acc = read(&buf);
    assert_eq!(acc.total_gifs, 2);
    assert_eq!(acc.gif_list.len(), 2);
    assert_eq!(acc.gif_list[0].gif_link, "http://a");
    assert_eq!(acc.gif_list[0].user_address, a);
    assert_eq!(acc.gif_list[0].vote, 1);
    assert_eq!(acc.gif_list[1].gif_link, "http://b");
    assert_eq!(acc.gif_list[1].user_address, b);
    assert_eq!(acc.gif_list[1].vote, -1);
    assert_eq!(buf.capacity(), 9000);
}

#[test]
fn initialize_writes_empty_header() {
    let buf = fresh_store(64);
    let bytes = buf.as_slice();
    assert!(bytes[..12].iter().all(|&x| x == 0));
    let acc = read(&buf);
    assert_eq!(acc.total_gifs, 0);
    assert!(acc.gif_list.is_empty());
}

#[test]
fn initialize_resets_prior_content() {
    let buf = fresh_store(500);
    let (buf, _) = append(buf, "http://a", owner(2));
    let (buf, _) = append(buf, "http://b", owner(3));
    let (buf, r) = init(buf, owner(4));
    assert_eq!(r, Ok(()));
    let acc = read(&buf);
    assert_eq!(acc.total_gifs, 0);
    assert!(acc.gif_list.is_empty());

    let garbage: Vec<u8> = (0..100u32).map(|i| (i * 37 + 5) as u8).collect();
    let (buf, r) = init(AccountBuffer::from_bytes(garbage), owner(4));
    assert_eq!(r, Ok(()));
    let acc = read(&buf);
    assert_eq!(acc.total_gifs, 0);
    assert!(acc.gif_list.is_empty());
}

#[test]
fn initialize_too_small_buffer_fails_unchanged() {
    let before = vec![7u8; 11];
    let (buf, r) = init(AccountBuffer::from_bytes(before.clone()), owner(1));
    assert_eq!(r, Err(StoreError::CapacityError));
    assert_eq!(buf.as_slice(), &before[..]);
}

#[test]
fn initialize_exact_header_size() {
    let (buf, r) = init(AccountBuffer::from_bytes(vec![9u8; 12]), owner(1));
    assert_eq!(r, Ok(()));
    assert_eq!(buf.as_slice(), &[0u8; 12][..]);
}

#[test]
fn append_increments_count_and_indexes_by_prior_count() {
    let mut buf = fresh_store(2000);
    for n in 0..10u64 {
        let link = format!("http://x/{}", n);
        let (next, r) = append(buf, &link, owner(n as u8));
        assert_eq!(r, Ok(()));
        let acc = read(&next);
        assert_eq!(acc.total_gifs, n + 1);
        assert_eq!(acc.gif_list.len() as u64, n + 1);
        let item = &acc.gif_list[n as usize];
        assert_eq!(item.gif_link, link);
        assert_eq!(item.user_address, owner(n as u8));
        assert_eq!(item.vote, 0);
        for k in 0..n as usize {
            assert_eq!(acc.gif_list[k].gif_link, format!("http://x/{}", k));
        }
        buf = next;
    }
}

#[test]
fn append_past_capacity_fails_and_keeps_bytes() {
    // header 12 bytes + one record of 4 + 8 + 32 + 4 bytes
    let buf = fresh_store(60);
    let (buf, r) = append(buf, "http://a", owner(1));
    assert_eq!(r, Ok(()));
    let before = buf.as_slice().to_vec();
    let (buf, r) = append(buf, "http://b", owner(2));
    assert_eq!(r, Err(StoreError::CapacityError));
    assert_eq!(buf.as_slice(), &before[..]);
    let acc = read(&buf);
    assert_eq!(acc.total_gifs, 1);
}

#[test]
fn append_to_exact_fit_succeeds() {
    let buf = fresh_store(60 + 48);
    let (buf, r) = append(buf, "http://a", owner(1));
    assert_eq!(r, Ok(()));
    let (buf, r) = append(buf, "http://b", owner(2));
    assert_eq!(r, Ok(()));
    let (buf, r) = append(buf, "", owner(3));
    assert_eq!(r, Err(StoreError::CapacityError));
    assert_eq!(read(&buf).total_gifs, 2);
}

#[test]
fn append_empty_link() {
    let buf = fresh_store(100);
    let (buf, r) = append(buf, "", owner(5));
    assert_eq!(r, Ok(()));
    let acc = read(&buf);
    assert_eq!(acc.gif_list[0].gif_link, "");
    assert_eq!(acc.gif_list[0].user_address, owner(5));
}

#[test]
fn append_on_corrupt_buffer_fails_unchanged() {
    let mut bytes = vec![0u8; 100];
    bytes[0] = 3; // count 3 but no records
    let (buf, r) = append(AccountBuffer::from_bytes(bytes.clone()), "http://a", owner(1));
    assert_eq!(r, Err(StoreError::DeserializationError));
    assert_eq!(buf.as_slice(), &bytes[..]);
}

#[test]
fn vote_changes_only_the_target() {
    let buf = fresh_store(1000);
    let (buf, _) = append(buf, "http://a", owner(1));
    let (buf, _) = append(buf, "http://b", owner(2));
    let (buf, _) = append(buf, "http://c", owner(3));
    let (buf, r) = vote(buf, 1, 5);
    assert_eq!(r, Ok(()));
    let (buf, r) = vote(buf, 1, -2);
    assert_eq!(r, Ok(()));
    let acc = read(&buf);
    let links: Vec<&str> = acc.gif_list.iter().map(|i| i.gif_link.as_str()).collect();
    assert_eq!(links, vec!["http://a", "http://b", "http://c"]);
    let owners: Vec<Identity> = acc.gif_list.iter().map(|i| i.user_address).collect();
    assert_eq!(owners, vec![owner(1), owner(2), owner(3)]);
    let votes: Vec<i32> = acc.gif_list.iter().map(|i| i.vote).collect();
    assert_eq!(votes, vec![0, 3, 0]);
}

#[test]
fn vote_out_of_range_fails_unchanged() {
    let buf = fresh_store(1000);
    let (buf, _) = append(buf, "http://a", owner(1));
    let (buf, _) = append(buf, "http://b", owner(2));
    let before = buf.as_slice().to_vec();
    let (buf, r) = vote(buf, 2, 1);
    assert_eq!(r, Err(StoreError::IndexOutOfRange));
    assert_eq!(buf.as_slice(), &before[..]);
    let (buf, r) = vote(buf, u32::MAX, -1);
    assert_eq!(r, Err(StoreError::IndexOutOfRange));
    assert_eq!(buf.as_slice(), &before[..]);
}

#[test]
fn vote_on_empty_store_is_out_of_range() {
    let buf = fresh_store(100);
    let (_, r) = vote(buf, 0, 1);
    assert_eq!(r, Err(StoreError::IndexOutOfRange));
}

#[test]
fn vote_on_corrupt_buffer_fails() {
    let (_, r) = vote(AccountBuffer::zeroed(5), 0, 1);
    assert_eq!(r, Err(StoreError::DeserializationError));
}

#[test]
fn vote_wraps_at_i32_bounds() {
    let buf = fresh_store(100);
    let (buf, _) = append(buf, "http://a", owner(1));
    let (buf, r) = vote(buf, 0, i32::MAX);
    assert_eq!(r, Ok(()));
    let (buf, r) = vote(buf, 0, 1);
    assert_eq!(r, Ok(()));
    assert_eq!(read(&buf).gif_list[0].vote, i32::MIN);
    let (buf, r) = vote(buf, 0, -1);
    assert_eq!(r, Ok(()));
    assert_eq!(read(&buf).gif_list[0].vote, i32::MAX);
}

#[test]
fn layout_of_one_record() {
    let buf = fresh_store(80);
    let (buf, _) = append(buf, "ab", owner(0x11));
    let (buf, _) = vote(buf, 0, -2);
    let mut expected: Vec<u8> = vec![1, 0, 0, 0, 0, 0, 0, 0, 1, 0, 0, 0, 2, 0, 0, 0, b'a', b'b'];
    expected.extend_from_slice(&[0x11u8; 32]);
    expected.extend_from_slice(&[0xfe, 0xff, 0xff, 0xff]);
    assert_eq!(&buf.as_slice()[..expected.len()], &expected[..]);
    assert!(buf.as_slice()[expected.len()..].iter().all(|&x| x == 0));
}

#[test]
fn round_trip_reproduces_buffer_prefix() {
    let buf = fresh_store(1000);
    let (buf, _) = append(buf, "http://a", owner(1));
    let (buf, _) = append(buf, "héllo wörld ✓", owner(2));
    let (buf, _) = vote(buf, 1, -7);
    let acc = read(&buf);
    assert_eq!(acc.gif_list[1].gif_link, "héllo wörld ✓");
    assert_eq!(acc.gif_list[1].vote, -7);
    let bytes = serialize(&acc);
    assert_eq!(&buf.as_slice()[..bytes.len()], &bytes[..]);
}

#[test]
fn serialize_then_deserialize_gives_the_store() {
    let acc = BaseAccount {
        total_gifs: 2,
        gif_list: vec![
            ItemStruct { gif_link: "x".to_string(), user_address: owner(1), vote: 5 },
            ItemStruct { gif_link: "yz".to_string(), user_address: owner(2), vote: -5 },
        ],
    };
    let bytes = serialize(&acc);
    assert_eq!(bytes.len(), 12 + 41 + 42);
    let back = deserialize(&bytes).unwrap();
    assert_eq!(back.total_gifs, 2);
    assert_eq!(back.gif_list[0].gif_link, "x");
    assert_eq!(back.gif_list[1].gif_link, "yz");
    assert_eq!(back.gif_list[1].user_address, owner(2));
    assert_eq!(back.gif_list[1].vote, -5);
}

#[test]
fn deserialize_rejects_invalid_utf8_link() {
    let mut bytes: Vec<u8> = vec![1, 0, 0, 0, 0, 0, 0, 0, 1, 0, 0, 0, 2, 0, 0, 0, 0xff, 0xfe];
    bytes.extend_from_slice(&[0u8; 36]);
    assert_eq!(deserialize(&bytes).err(), Some(StoreError::DeserializationError));
    bytes[16] = b'o';
    bytes[17] = b'k';
    assert_eq!(deserialize(&bytes).unwrap().gif_list[0].gif_link, "ok");
}

#[test]
fn deserialize_rejects_truncated_record() {
    let mut bytes: Vec<u8> = vec![1, 0, 0, 0, 0, 0, 0, 0, 1, 0, 0, 0, 2, 0, 0, 0, b'o', b'k'];
    bytes.extend_from_slice(&[0u8; 35]);
    assert_eq!(deserialize(&bytes).err(), Some(StoreError::DeserializationError));
    assert_eq!(deserialize(&[0u8; 11]).err(), Some(StoreError::DeserializationError));
}
