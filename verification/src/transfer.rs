//! State transfer: the pairs of one store, as a scan reads them, laid over another store.

use vstd::prelude::*;
use vstd::utf8::*;

use crate::store::{
    apply_write, apply_writes, law_writes_split, lemma_encoding_is_injective, lemma_key_bytes,
    lemma_one_write, lookup, put_write, text_store, Store, WriteView,
};

verus! {

/// A row of the store as a scan reads it, or `None` where the row could not be read.
pub type Row = Option<(Vec<u8>, Vec<u8>)>;

pub type RowView = Option<(Seq<u8>, Seq<u8>)>;

pub open spec fn row_view(row: Row) -> RowView {
    match row {
        Some((key, value)) => Some((key@, value@)),
        None => None,
    }
}

pub open spec fn rows_view(v: Seq<Row>) -> Seq<RowView> {
    v.map_values(|r: Row| row_view(r))
}

/// The pairs of the rows that could be read, in order; `None` if one of those is not UTF-8.
pub open spec fn text_pairs(rows: Seq<RowView>) -> Option<Seq<(Seq<char>, Seq<char>)>>
    decreases rows.len(),
{
    if rows.len() == 0 {
        Some(Seq::empty())
    } else {
        match text_pairs(rows.drop_last()) {
            None => None,
            Some(before) => match rows.last() {
                None => Some(before),
                Some((key, value)) => if valid_utf8(key) && valid_utf8(value) {
                    Some(before.push((decode_utf8(key), decode_utf8(value))))
                } else {
                    None
                },
            },
        }
    }
}

pub open spec fn has_key(list: Seq<(Seq<char>, Seq<char>)>, key: Seq<char>) -> bool {
    exists|i: int| 0 <= i < list.len() && (#[trigger] list[i]).0 == key
}

/// A put for each key of the list, with the value that stands last in the list under that key.
pub open spec fn latest_puts(list: Seq<(Seq<char>, Seq<char>)>) -> Seq<WriteView>
    decreases list.len(),
{
    if list.len() == 0 {
        Seq::empty()
    } else {
        let rest = latest_puts(list.drop_first());
        if has_key(list.drop_first(), list[0].0) {
            rest
        } else {
            seq![put_write(list[0].0, list[0].1)] + rest
        }
    }
}

/// A delete for each row whose key is text and not in the list.
pub open spec fn stale_deletes(
    list: Seq<(Seq<char>, Seq<char>)>,
    rows: Seq<RowView>,
) -> Seq<WriteView>
    decreases rows.len(),
{
    if rows.len() == 0 {
        Seq::empty()
    } else {
        let before = stale_deletes(list, rows.drop_last());
        match rows.last() {
            Some((key, _)) if valid_utf8(key) && !has_key(list, decode_utf8(key)) => before.push(
                WriteView::Delete(key),
            ),
            _ => before,
        }
    }
}

/// The store that a list of pairs describes; of two pairs with one key the later counts.
pub open spec fn described(list: Seq<(Seq<char>, Seq<char>)>) -> Store
    decreases list.len(),
{
    if list.len() == 0 {
        Map::empty()
    } else {
        described(list.drop_last()).insert(encode_utf8(list.last().0), encode_utf8(list.last().1))
    }
}

/// Where a scan fails on some rows, it fails on all of them.
pub proof fn lemma_text_pairs_fails(rows: Seq<RowView>, n: int)
    requires
        0 <= n <= rows.len(),
        text_pairs(rows.take(n)) is None,
    ensures
        text_pairs(rows) is None,
    decreases rows.len(),
{
    if n == rows.len() {
        assert(rows.take(n) =~= rows);
    } else {
        assert(rows.drop_last().take(n) =~= rows.take(n));
        lemma_text_pairs_fails(rows.drop_last(), n);
    }
}

proof fn lemma_described_keys(list: Seq<(Seq<char>, Seq<char>)>)
    ensures
        forall|key: Seq<char>| #[trigger]
            has_key(list, key) == described(list).contains_key(encode_utf8(key)),
    decreases list.len(),
{
    if list.len() > 0 {
        let short = list.drop_last();
        lemma_described_keys(short);
        lemma_key_bytes(list.last().0);
        assert forall|key: Seq<char>| #[trigger] has_key(list, key) == described(list).contains_key(
            encode_utf8(key),
        ) by {
            assert(has_key(short, key) == described(short).contains_key(encode_utf8(key)));
            if key == list.last().0 {
                assert(list[list.len() - 1].0 == key);
            } else {
                if encode_utf8(key) == encode_utf8(list.last().0) {
                    lemma_encoding_is_injective(key, list.last().0);
                }
                if has_key(list, key) {
                    let i = choose|i: int| 0 <= i < list.len() && (#[trigger] list[i]).0 == key;
                    assert(short[i].0 == key);
                }
                if has_key(short, key) {
                    let i = choose|i: int| 0 <= i < short.len() && (#[trigger] short[i]).0 == key;
                    assert(list[i].0 == key);
                }
            }
        }
    }
}

proof fn lemma_described_first(list: Seq<(Seq<char>, Seq<char>)>)
    requires
        list.len() > 0,
    ensures
        ({
            let k = encode_utf8(list[0].0);
            let rest = described(list.drop_first());
            described(list) == if rest.contains_key(k) {
                rest
            } else {
                rest.insert(k, encode_utf8(list[0].1))
            }
        }),
    decreases list.len(),
{
    if list.len() == 1 {
        assert(list.drop_last() =~= Seq::empty());
        assert(list.drop_first() =~= Seq::empty());
    } else {
        lemma_described_first(list.drop_last());
        assert(list.drop_last().drop_first() =~= list.drop_first().drop_last());
        assert(list.drop_first().last() == list.last());
        let k = encode_utf8(list[0].0);
        let rest = described(list.drop_first());
        if rest.contains_key(k) {
            assert(described(list) =~= rest);
        } else {
            assert(described(list) =~= rest.insert(k, encode_utf8(list[0].1)));
        }
    }
}

/// The puts of a state transfer lay the state that the list describes over the store.
proof fn lemma_latest_puts(store: Store, list: Seq<(Seq<char>, Seq<char>)>)
    ensures
        apply_writes(store, latest_puts(list)) == store.union_prefer_right(described(list)),
    decreases list.len(),
{
    if list.len() == 0 {
        assert(store.union_prefer_right(described(list)) =~= store);
    } else {
        let rest = list.drop_first();
        lemma_described_first(list);
        lemma_described_keys(rest);
        assert(has_key(rest, list[0].0) == described(rest).contains_key(encode_utf8(list[0].0)));
        if has_key(rest, list[0].0) {
            lemma_latest_puts(store, rest);
        } else {
            let w = put_write(list[0].0, list[0].1);
            law_writes_split(store, seq![w], latest_puts(rest));
            lemma_one_write(store, w);
            lemma_latest_puts(apply_write(store, w), rest);
            assert(apply_write(store, w).union_prefer_right(described(rest))
                =~= store.union_prefer_right(described(list)));
        }
    }
}

/// Whether a scan found the key `k`.
pub open spec fn row_has_key(row: RowView, k: Seq<u8>) -> bool {
    row is Some && (row->0).0 == k
}

pub open spec fn found(rows: Seq<RowView>, k: Seq<u8>) -> bool {
    exists|i: int| 0 <= i < rows.len() && #[trigger] row_has_key(rows[i], k)
}

/// Whether a state transfer that scanned `rows` deletes the key `k`.
pub open spec fn stale(
    list: Seq<(Seq<char>, Seq<char>)>,
    rows: Seq<RowView>,
    k: Seq<u8>,
) -> bool {
    found(rows, k) && valid_utf8(k) && !described(list).contains_key(k)
}

proof fn lemma_stale_deletes(
    store: Store,
    list: Seq<(Seq<char>, Seq<char>)>,
    rows: Seq<RowView>,
)
    ensures
        forall|k: Seq<u8>| #[trigger]
            apply_writes(store, stale_deletes(list, rows)).contains_key(k) <==> store.contains_key(
                k,
            ) && !stale(list, rows, k),
        forall|k: Seq<u8>| #[trigger]
            apply_writes(store, stale_deletes(list, rows)).contains_key(k) ==> apply_writes(
                store,
                stale_deletes(list, rows),
            )[k] == store[k],
    decreases rows.len(),
{
    if rows.len() > 0 {
        let short = rows.drop_last();
        lemma_stale_deletes(store, list, short);
        lemma_described_keys(list);
        let before = stale_deletes(list, short);
        let after = stale_deletes(list, rows);
        assert forall|k: Seq<u8>| #[trigger] found(rows, k) == (found(short, k) || row_has_key(
            rows.last(),
            k,
        )) by {
            if found(short, k) {
                let i = choose|i: int| 0 <= i < short.len() && #[trigger] row_has_key(short[i], k);
                assert(row_has_key(rows[i], k));
            }
            if row_has_key(rows.last(), k) {
                assert(row_has_key(rows[rows.len() - 1], k));
            }
            if found(rows, k) {
                let i = choose|i: int| 0 <= i < rows.len() && #[trigger] row_has_key(rows[i], k);
                if i < short.len() {
                    assert(row_has_key(short[i], k));
                }
            }
        }
        if let Some((key, _)) = rows.last() {
            if valid_utf8(key) {
                decode_utf8_encode_utf8(key);
                assert(has_key(list, decode_utf8(key)) == described(list).contains_key(key));
                if !has_key(list, decode_utf8(key)) {
                    assert(after.drop_last() =~= before);
                }
            }
        }
        assert forall|k: Seq<u8>| #[trigger] apply_writes(store, after).contains_key(k)
            <==> store.contains_key(k) && !stale(list, rows, k) by {
            assert(found(rows, k) == (found(short, k) || row_has_key(rows.last(), k)));
            assert(apply_writes(store, before).contains_key(k) <==> store.contains_key(k) && !stale(
                list,
                short,
                k,
            ));
        }
        assert forall|k: Seq<u8>| #[trigger] apply_writes(store, after).contains_key(
            k,
        ) implies apply_writes(store, after)[k] == store[k] by {
            assert(apply_writes(store, before).contains_key(k));
        }
    }
}

/// What a state transfer leaves under each key: the value that the list has for it; no value,
/// where the scan found the key, the key is text and the list does not have it; and otherwise
/// what was there.
pub proof fn law_state_transfer_effect(
    store: Store,
    list: Seq<(Seq<char>, Seq<char>)>,
    rows: Seq<RowView>,
)
    ensures
        ({
            let after = apply_writes(store, latest_puts(list) + stale_deletes(list, rows));
            let with = store.union_prefer_right(described(list));
            &&& forall|k: Seq<u8>| #[trigger]
                after.contains_key(k) <==> with.contains_key(k) && !stale(list, rows, k)
            &&& forall|k: Seq<u8>| #[trigger] after.contains_key(k) ==> after[k] == with[k]
        }),
{
    law_writes_split(store, latest_puts(list), stale_deletes(list, rows));
    lemma_latest_puts(store, list);
    lemma_stale_deletes(store.union_prefer_right(described(list)), list, rows);
}

/// Whether `rows` is what a scan of the whole of `store` reads.
pub open spec fn full_scan(rows: Seq<RowView>, store: Store) -> bool {
    &&& forall|i: int|
        0 <= i < rows.len() ==> (#[trigger] rows[i]) is Some && store.contains_pair(
            (rows[i]->0).0,
            (rows[i]->0).1,
        )
    &&& forall|k: Seq<u8>| #[trigger] store.contains_key(k) ==> found(rows, k)
}

proof fn lemma_scan_describes(rows: Seq<RowView>, store: Store)
    requires
        text_store(store),
        forall|i: int|
            0 <= i < rows.len() ==> (#[trigger] rows[i]) is Some && store.contains_pair(
                (rows[i]->0).0,
                (rows[i]->0).1,
            ),
    ensures
        text_pairs(rows) is Some,
        forall|k: Seq<u8>| #[trigger]
            described(text_pairs(rows)->0).contains_key(k) <==> found(rows, k),
        forall|k: Seq<u8>| #[trigger]
            described(text_pairs(rows)->0).contains_key(k) ==> store.contains_pair(
                k,
                described(text_pairs(rows)->0)[k],
            ),
    decreases rows.len(),
{
    if rows.len() > 0 {
        let short = rows.drop_last();
        assert forall|i: int| 0 <= i < short.len() implies (#[trigger] short[i]) is Some
            && store.contains_pair((short[i]->0).0, (short[i]->0).1) by {
            assert(short[i] == rows[i]);
        }
        lemma_scan_describes(short, store);
        let row = rows[rows.len() - 1]->0;
        assert(store.contains_pair(row.0, row.1));
        decode_utf8_encode_utf8(row.0);
        decode_utf8_encode_utf8(row.1);
        let list = text_pairs(rows)->0;
        assert(list.drop_last() =~= text_pairs(short)->0);
        assert(described(list) == described(text_pairs(short)->0).insert(row.0, row.1));
        assert forall|k: Seq<u8>| #[trigger] described(list).contains_key(k) <==> found(rows, k) by {
            assert(described(text_pairs(short)->0).contains_key(k) <==> found(short, k));
            if found(short, k) {
                let i = choose|i: int| 0 <= i < short.len() && #[trigger] row_has_key(short[i], k);
                assert(row_has_key(rows[i], k));
            }
            if k == row.0 {
                assert(row_has_key(rows[rows.len() - 1], k));
            }
            if found(rows, k) && k != row.0 {
                let i = choose|i: int| 0 <= i < rows.len() && #[trigger] row_has_key(rows[i], k);
                assert(row_has_key(short[i], k));
            }
        }
    }
}

/// A state transfer makes the receiver's store equal to the sender's: the sender's scan gives a
/// list of pairs, and the writes that the list comes to at the receiver leave there what the
/// sender has, and nothing else.
pub proof fn law_state_transfer(
    sender: Store,
    sender_rows: Seq<RowView>,
    receiver: Store,
    receiver_rows: Seq<RowView>,
)
    requires
        text_store(sender),
        text_store(receiver),
        full_scan(sender_rows, sender),
        full_scan(receiver_rows, receiver),
    ensures
        ({
            let list = text_pairs(sender_rows);
            &&& list is Some
            &&& apply_writes(
                receiver,
                latest_puts(list->0) + stale_deletes(list->0, receiver_rows),
            ) == sender
        }),
{
    lemma_scan_describes(sender_rows, sender);
    let list = text_pairs(sender_rows)->0;
    let after = apply_writes(receiver, latest_puts(list) + stale_deletes(list, receiver_rows));
    let with = receiver.union_prefer_right(described(list));
    law_state_transfer_effect(receiver, list, receiver_rows);
    assert(described(list) =~= sender) by {
        assert forall|k: Seq<u8>| #[trigger] sender.contains_key(k) implies described(
            list,
        ).contains_key(k) by {
            assert(found(sender_rows, k));
        }
    }
    assert forall|k: Seq<u8>|
        #![trigger after.contains_key(k)]
        #![trigger sender.contains_key(k)]
        after.contains_key(k) == sender.contains_key(k) && (after.contains_key(k) ==> after[k]
            == sender[k]) by {
        assert(with.contains_key(k) <==> receiver.contains_key(k) || sender.contains_key(k));
        if receiver.contains_key(k) && !sender.contains_key(k) {
            assert(stale(list, receiver_rows, k));
        }
    }
    assert(after =~= sender);
}

/// A state transfer keeps a store of text a store of text.
pub proof fn law_state_transfer_keeps_text(
    store: Store,
    list: Seq<(Seq<char>, Seq<char>)>,
    rows: Seq<RowView>,
)
    requires
        text_store(store),
    ensures
        text_store(apply_writes(store, latest_puts(list) + stale_deletes(list, rows))),
{
    law_state_transfer_effect(store, list, rows);
    lemma_described_text(list);
}

proof fn lemma_described_text(list: Seq<(Seq<char>, Seq<char>)>)
    ensures
        text_store(described(list)),
    decreases list.len(),
{
    if list.len() > 0 {
        lemma_described_text(list.drop_last());
        encode_utf8_valid_utf8(list.last().0);
        encode_utf8_valid_utf8(list.last().1);
    }
}

proof fn lemma_described_last(
    before: Seq<(Seq<char>, Seq<char>)>,
    key: Seq<char>,
    value: Seq<char>,
    after: Seq<(Seq<char>, Seq<char>)>,
)
    requires
        forall|i: int| 0 <= i < after.len() ==> (#[trigger] after[i]).0 != key,
    ensures
        described(before.push((key, value)) + after).contains_pair(
            encode_utf8(key),
            encode_utf8(value),
        ),
    decreases after.len(),
{
    let upto = before.push((key, value));
    if after.len() == 0 {
        assert(upto + after =~= upto);
        assert(upto.drop_last() =~= before);
    } else {
        let short = after.drop_last();
        assert((upto + after).drop_last() =~= upto + short);
        assert(after[after.len() - 1].0 != key);
        assert forall|i: int| 0 <= i < short.len() implies (#[trigger] short[i]).0 != key by {
            assert(short[i] == after[i]);
        }
        lemma_described_last(before, key, value, short);
        if encode_utf8(after.last().0) == encode_utf8(key) {
            lemma_encoding_is_injective(after.last().0, key);
        }
    }
}

/// After a state transfer the receiver holds under each key of the list the value that stands last
/// for it there, whatever it held before and whatever the scan of it read.
pub proof fn law_transferred_pair_is_held(
    store: Store,
    before: Seq<(Seq<char>, Seq<char>)>,
    key: Seq<char>,
    value: Seq<char>,
    after: Seq<(Seq<char>, Seq<char>)>,
    rows: Seq<RowView>,
)
    requires
        forall|i: int| 0 <= i < after.len() ==> (#[trigger] after[i]).0 != key,
    ensures
        ({
            let list = before.push((key, value)) + after;
            lookup(
                apply_writes(store, latest_puts(list) + stale_deletes(list, rows)),
                key,
            ) == Some(encode_utf8(value))
        }),
{
    let list = before.push((key, value)) + after;
    lemma_described_last(before, key, value, after);
    law_state_transfer_effect(store, list, rows);
    let done = apply_writes(store, latest_puts(list) + stale_deletes(list, rows));
    let k = encode_utf8(key);
    assert(!stale(list, rows, k));
    assert(done.contains_key(k));
}

proof fn lemma_not_described(list: Seq<(Seq<char>, Seq<char>)>, k: Seq<u8>)
    requires
        forall|i: int| 0 <= i < list.len() ==> encode_utf8((#[trigger] list[i]).0) != k,
    ensures
        !described(list).contains_key(k),
    decreases list.len(),
{
    if list.len() > 0 {
        let short = list.drop_last();
        assert forall|i: int| 0 <= i < short.len() implies encode_utf8((#[trigger] short[i]).0)
            != k by {
            assert(short[i] == list[i]);
        }
        assert(encode_utf8(list[list.len() - 1].0) != k);
        lemma_not_described(short, k);
    }
}

/// A key that the list of a state transfer does not have is gone afterwards if the scan of the
/// receiver read it and it is text, and holds what it held otherwise.
pub proof fn law_untransferred_key(
    store: Store,
    list: Seq<(Seq<char>, Seq<char>)>,
    rows: Seq<RowView>,
    k: Seq<u8>,
    i: int,
)
    requires
        forall|j: int| 0 <= j < list.len() ==> encode_utf8((#[trigger] list[j]).0) != k,
    ensures
        ({
            let after = apply_writes(store, latest_puts(list) + stale_deletes(list, rows));
            &&& valid_utf8(k) && 0 <= i < rows.len() && rows[i] is Some && (rows[i]->0).0 == k
                ==> !after.contains_key(k)
            &&& (!valid_utf8(k) || forall|j: int|
                0 <= j < rows.len() && (#[trigger] rows[j]) is Some ==> (rows[j]->0).0 != k)
                ==> after.contains_key(k) == store.contains_key(k) && (store.contains_key(k)
                ==> after[k] == store[k])
        }),
{
    lemma_not_described(list, k);
    law_state_transfer_effect(store, list, rows);
    let after = apply_writes(store, latest_puts(list) + stale_deletes(list, rows));
    let with = store.union_prefer_right(described(list));
    assert(with.contains_key(k) == store.contains_key(k));
    if 0 <= i < rows.len() && rows[i] is Some && (rows[i]->0).0 == k {
        assert(row_has_key(rows[i], k));
        assert(found(rows, k));
    }
    if forall|j: int| 0 <= j < rows.len() && (#[trigger] rows[j]) is Some ==> (rows[j]->0).0 != k {
        if found(rows, k) {
            let j = choose|j: int| 0 <= j < rows.len() && #[trigger] row_has_key(rows[j], k);
            assert(rows[j] is Some);
        }
    }
    assert(after.contains_key(k) <==> with.contains_key(k) && !stale(list, rows, k));
}

/// A scan gives the pairs of its rows, in their order: those of two scans, one behind the other, are
/// the pairs of the one and then those of the other, and where either fails the whole does.
pub proof fn law_scan_in_pieces(a: Seq<RowView>, b: Seq<RowView>)
    ensures
        text_pairs(a + b) == (match (text_pairs(a), text_pairs(b)) {
            (Some(x), Some(y)) => Some(x + y),
            _ => None,
        }),
    decreases b.len(),
{
    if b.len() == 0 {
        assert(a + b =~= a);
        if let Some(x) = text_pairs(a) {
            assert(x + Seq::<(Seq<char>, Seq<char>)>::empty() =~= x);
        }
    } else {
        assert((a + b).drop_last() =~= a + b.drop_last());
        law_scan_in_pieces(a, b.drop_last());
        if let (Some(x), Some(y)) = (text_pairs(a), text_pairs(b.drop_last())) {
            if let Some((key, value)) = b.last() {
                let p = (decode_utf8(key), decode_utf8(value));
                assert((x + y).push(p) =~= x + y.push(p));
            }
        }
    }
}

/// A row gives the pair that it holds, if that is text, and else makes the scan fail; a row that
/// could not be read gives nothing.
pub proof fn law_row_gives_its_pair(key: Seq<char>, value: Seq<char>, k: Vec<u8>, v: Vec<u8>)
    ensures
        text_pairs(seq![None]) == Some(Seq::<(Seq<char>, Seq<char>)>::empty()),
        text_pairs(seq![Some((encode_utf8(key), encode_utf8(value)))]) == Some(
            seq![(key, value)],
        ),
        !valid_utf8(k@) || !valid_utf8(v@) ==> text_pairs(seq![row_view(Some((k, v)))]) is None,
        valid_utf8(k@) && valid_utf8(v@) ==> text_pairs(seq![row_view(Some((k, v)))]) == Some(
            seq![(decode_utf8(k@), decode_utf8(v@))],
        ),
        row_view(None) is None,
{
    let unread: Seq<RowView> = seq![None];
    let one: Seq<RowView> = seq![Some((encode_utf8(key), encode_utf8(value)))];
    let raw: Seq<RowView> = seq![row_view(Some((k, v)))];
    assert(unread.drop_last() =~= Seq::empty());
    assert(one.drop_last() =~= Seq::empty());
    assert(raw.drop_last() =~= Seq::empty());
    encode_utf8_valid_utf8(key);
    encode_utf8_valid_utf8(value);
    encode_utf8_decode_utf8(key);
    encode_utf8_decode_utf8(value);
    assert(text_pairs(Seq::empty()) == Some(Seq::<(Seq<char>, Seq<char>)>::empty()));
    assert(Seq::<(Seq<char>, Seq<char>)>::empty().push((key, value)) =~= seq![(key, value)]);
    let p = (decode_utf8(k@), decode_utf8(v@));
    assert(Seq::<(Seq<char>, Seq<char>)>::empty().push(p) =~= seq![p]);
}

/// Rows stand for themselves, in their order.
pub proof fn law_rows_in_order(v: Seq<Row>, i: int)
    requires
        0 <= i < v.len(),
    ensures
        rows_view(v).len() == v.len(),
        rows_view(v)[i] is Some <==> v[i] is Some,
        v[i] is Some ==> rows_view(v)[i] == Some(((v[i]->0).0@, (v[i]->0).1@)),
{
}

} // verus!
