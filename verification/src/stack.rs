use vstd::prelude::*;

use crate::codec::spec_read_all;
use crate::record::{items_view, logs_view, Item, ItemModel, Log, LogCommand, LogModel, ReadError};

verus! {

/// The parsed command the surrounding command-line glue hands to the
/// core, one invocation at a time.
#[derive(Debug)]
pub enum Config {
    All,
    Debug,
    Pop,
    Top { count: u64 },
    Add { task: String },
}

/// The item a record speaks of: its timestamp and text, the pair that
/// identifies a task.
pub open spec fn spec_item_of(r: LogModel) -> ItemModel {
    ItemModel { timestamp: r.timestamp, data: r.data }
}

/// Every Add record's item, in file order (oldest first).
pub open spec fn spec_adds(rs: Seq<LogModel>) -> Seq<ItemModel> {
    rs.filter(|r: LogModel| r.command is Add).map_values(|r: LogModel| spec_item_of(r))
}

/// Every Pop record's item: the tombstone keys. Only membership matters;
/// one tombstone suppresses every Add that carries the same pair.
pub open spec fn spec_tombs(rs: Seq<LogModel>) -> Seq<ItemModel> {
    rs.filter(|r: LogModel| r.command is Pop).map_values(|r: LogModel| spec_item_of(r))
}

/// An item is live when no tombstone carries its pair.
pub open spec fn spec_is_live(rs: Seq<LogModel>, it: ItemModel) -> bool {
    !spec_tombs(rs).contains(it)
}

/// The live items among the added ones from position `j` of the Add
/// sequence on, in file order.
pub open spec fn spec_live_from(rs: Seq<LogModel>, j: int) -> Seq<ItemModel> {
    spec_adds(rs).skip(j).filter(|it: ItemModel| spec_is_live(rs, it))
}

/// The live items, in file order (oldest first).
pub open spec fn spec_live(rs: Seq<LogModel>) -> Seq<ItemModel> {
    spec_live_from(rs, 0)
}

/// The current stack: the live items, newest first.
pub open spec fn spec_stack(rs: Seq<LogModel>) -> Seq<ItemModel> {
    spec_live(rs).reverse()
}

/// The stack built from position `j` of the Add sequence on: the live
/// items among the Adds from there to the end, newest first. From
/// position zero this is the whole stack; the recursion mirrors a walk
/// over the added items from the newest end backwards.
pub open spec fn spec_stack_from(rs: Seq<LogModel>, j: int) -> Seq<ItemModel>
    decreases spec_adds(rs).len() - j,
{
    let adds = spec_adds(rs);
    if j < 0 || j >= adds.len() {
        Seq::empty()
    } else {
        spec_stack_from(rs, j + 1) + if spec_is_live(rs, adds[j]) {
            seq![adds[j]]
        } else {
            Seq::empty()
        }
    }
}

proof fn lemma_stack_from(rs: Seq<LogModel>, j: int)
    requires
        0 <= j <= spec_adds(rs).len(),
    ensures
        spec_stack_from(rs, j) == spec_live_from(rs, j).reverse(),
    decreases spec_adds(rs).len() - j,
{
    broadcast use vstd::seq_lib::group_seq_lib_default;

    let adds = spec_adds(rs);
    if j == adds.len() {
        assert(adds.skip(j) =~= Seq::<ItemModel>::empty());
        assert(spec_live_from(rs, j).len() == 0);
        assert(spec_live_from(rs, j).reverse() =~= Seq::<ItemModel>::empty());
    } else {
        lemma_stack_from(rs, j + 1);
        let head = seq![adds[j]];
        assert(adds.skip(j) == head + adds.skip(j + 1)) by {
            assert(adds.skip(j) =~= head + adds.skip(j + 1));
        }
        reveal_with_fuel(Seq::filter, 2);
        assert(head.drop_last() =~= Seq::<ItemModel>::empty());
        assert(head.last() == adds[j]);
        assert(Seq::<ItemModel>::empty().filter(|it: ItemModel| spec_is_live(rs, it)).len()
            == 0);
        assert(spec_live_from(rs, j) == head.filter(|it: ItemModel| spec_is_live(rs, it))
            + spec_live_from(rs, j + 1));
        if spec_is_live(rs, adds[j]) {
            assert(head.filter(|it: ItemModel| spec_is_live(rs, it)) =~= head);
        } else {
            assert(head.filter(|it: ItemModel| spec_is_live(rs, it)) =~= Seq::<
                ItemModel,
            >::empty());
        }
        assert(spec_live_from(rs, j).reverse() =~= spec_live_from(rs, j + 1).reverse()
            + head.filter(|it: ItemModel| spec_is_live(rs, it)).reverse());
        assert(spec_stack_from(rs, j) =~= spec_live_from(rs, j).reverse());
    }
}

/// One tombstone is enough: an item whose pair some Pop record carries
/// never appears in the stack, however many times it was added.
pub proof fn lemma_tombstone_suppresses_all(rs: Seq<LogModel>, it: ItemModel)
    requires
        spec_tombs(rs).contains(it),
    ensures
        !spec_stack(rs).contains(it),
{
    broadcast use vstd::seq_lib::group_seq_lib_default;

    if spec_stack(rs).contains(it) {
        let k = choose|k: int| 0 <= k < spec_stack(rs).len() && spec_stack(rs)[k] == it;
        let live = spec_live(rs);
        assert(spec_stack(rs)[k] == live[live.len() - 1 - k]);
        assert(spec_is_live(rs, live[live.len() - 1 - k]));
    }
}

/// Whether a vector of items holds one with this model.
fn contains_item(items: &Vec<Item>, needle: &Item) -> (found: bool)
    ensures
        found == items_view(items@).contains(needle@),
{
    let mut i: usize = 0;
    while i < items.len()
        invariant
            i <= items@.len(),
            forall|k: int| 0 <= k < i ==> items_view(items@)[k] != needle@,
        decreases items@.len() - i,
    {
        if items[i].eq(needle) {
            proof {
                assert(items_view(items@)[i as int] == needle@);
            }
            return true;
        }
        i = i + 1;
    }
    proof {
        if items_view(items@).contains(needle@) {
            let k = choose|k: int|
                0 <= k < items_view(items@).len() && items_view(items@)[k] == needle@;
            assert(items_view(items@)[k] != needle@);
        }
    }
    false
}

/// Replay decoded records, oldest first, into the current stack. Add
/// items survive unless some Pop tombstone carries the same timestamp
/// and text - one tombstone suppresses every Add with that exact pair.
/// Survivors keep file order and are then reversed, so the most
/// recently added task comes first.
pub fn reconstruct(logs: &Vec<Log>) -> (items: Vec<Item>)
    ensures
        items_view(items@) == spec_stack(logs_view(logs@)),
{
    let ghost rs = logs_view(logs@);
    let mut adds: Vec<Item> = Vec::new();
    let mut popped: Vec<Item> = Vec::new();
    let mut i: usize = 0;
    proof {
        assert(rs.take(0) =~= Seq::<LogModel>::empty());
        assert(items_view(adds@) =~= spec_adds(rs.take(0)));
        assert(items_view(popped@) =~= spec_tombs(rs.take(0)));
    }
    while i < logs.len()
        invariant
            i <= logs@.len(),
            rs == logs_view(logs@),
            items_view(adds@) == spec_adds(rs.take(i as int)),
            items_view(popped@) == spec_tombs(rs.take(i as int)),
        decreases logs@.len() - i,
    {
        let item = Item { timestamp: logs[i].timestamp, data: logs[i].data.clone() };
        proof {
            reveal_with_fuel(Seq::filter, 2);
            let prefix = rs.take(i as int);
            let prefix2 = rs.take(i as int + 1);
            assert(prefix2.drop_last() =~= prefix);
            assert(prefix2.last() == rs[i as int]);
            assert(rs[i as int] == logs@[i as int]@);
            assert(item@ == spec_item_of(rs[i as int]));
        }
        match logs[i].command {
            LogCommand::Add => {
                adds.push(item);
                proof {
                    reveal_with_fuel(Seq::filter, 2);
                    let prefix = rs.take(i as int);
                    let prefix2 = rs.take(i as int + 1);
                    assert(prefix2.drop_last() =~= prefix);
                    assert(spec_adds(prefix2) =~= spec_adds(prefix).push(
                        spec_item_of(rs[i as int]),
                    ));
                    assert(items_view(adds@) =~= spec_adds(prefix2));
                    assert(items_view(popped@) =~= spec_tombs(prefix2));
                }
            },
            LogCommand::Pop => {
                popped.push(item);
                proof {
                    reveal_with_fuel(Seq::filter, 2);
                    let prefix = rs.take(i as int);
                    let prefix2 = rs.take(i as int + 1);
                    assert(prefix2.drop_last() =~= prefix);
                    assert(spec_tombs(prefix2) =~= spec_tombs(prefix).push(
                        spec_item_of(rs[i as int]),
                    ));
                    assert(items_view(adds@) =~= spec_adds(prefix2));
                    assert(items_view(popped@) =~= spec_tombs(prefix2));
                }
            },
        }
        i = i + 1;
    }
    proof {
        assert(rs.take(logs@.len() as int) =~= rs);
    }
    let mut items: Vec<Item> = Vec::new();
    let mut j: usize = adds.len();
    proof {
        assert(spec_stack_from(rs, j as int) =~= Seq::<ItemModel>::empty());
    }
    while j > 0
        invariant
            j <= adds@.len(),
            items_view(adds@) == spec_adds(rs),
            items_view(popped@) == spec_tombs(rs),
            items_view(items@) == spec_stack_from(rs, j as int),
        decreases j,
    {
        j = j - 1;
        let candidate = adds[j].clone();
        proof {
            assert(candidate@ == spec_adds(rs)[j as int]);
        }
        let live = !contains_item(&popped, &candidate);
        if live {
            items.push(candidate);
            proof {
                assert(items_view(items@) =~= spec_stack_from(rs, j as int + 1)
                    + seq![spec_adds(rs)[j as int]]);
                assert(items_view(items@) =~= spec_stack_from(rs, j as int));
            }
        } else {
            proof {
                assert(items_view(items@) =~= spec_stack_from(rs, j as int + 1)
                    + Seq::<ItemModel>::empty());
                assert(items_view(items@) =~= spec_stack_from(rs, j as int));
            }
        }
    }
    proof {
        lemma_stack_from(rs, 0);
    }
    items
}

/// At most `count` items off the top of the stack: a prefix of the
/// newest-first sequence, or all of it when `count` is no smaller than
/// the stack.
pub open spec fn spec_top(stack: Seq<ItemModel>, count: u64) -> Seq<ItemModel> {
    if count < stack.len() {
        stack.take(count as int)
    } else {
        stack
    }
}

/// Top with a count of zero is empty; top with a count at least the
/// stack's size is the whole stack.
pub proof fn lemma_top_bounds(stack: Seq<ItemModel>, count: u64)
    ensures
        spec_top(stack, 0) == Seq::<ItemModel>::empty(),
        count >= stack.len() ==> spec_top(stack, count) == stack,
{
    assert(spec_top(stack, 0) =~= Seq::<ItemModel>::empty());
}

/// The newest `count` items of the stack, newest first. A count past
/// the end is no error: the whole stack comes back.
pub fn top_items(items: &Vec<Item>, count: u64) -> (out: Vec<Item>)
    ensures
        items_view(out@) == spec_top(items_view(items@), count),
{
    let k: usize = if count < items.len() as u64 {
        count as usize
    } else {
        items.len()
    };
    let mut out: Vec<Item> = Vec::new();
    let mut i: usize = 0;
    proof {
        assert(items_view(out@) =~= items_view(items@).take(0));
    }
    while i < k
        invariant
            i <= k <= items@.len(),
            out@.len() == i,
            items_view(out@) == items_view(items@).take(i as int),
        decreases k - i,
    {
        out.push(items[i].clone());
        proof {
            assert(items_view(out@) =~= items_view(items@).take(i as int + 1));
        }
        i = i + 1;
    }
    proof {
        if count >= items@.len() {
            assert(items_view(items@).take(k as int) =~= items_view(items@));
        }
    }
    out
}

/// The record a Pop appends: a tombstone reusing the top item's
/// timestamp and text verbatim, so that its key matches the item
/// exactly. Nothing when the stack is empty - there is then nothing to
/// pop, and nothing is to be written.
pub fn plan_pop(items: &Vec<Item>) -> (out: Option<Log>)
    ensures
        out is None <==> items@.len() == 0,
        out matches Some(log) ==> log@ == (LogModel {
            timestamp: items@[0]@.timestamp,
            command: LogCommand::Pop,
            data: items@[0]@.data,
        }),
{
    if items.len() == 0 {
        None
    } else {
        Some(Log::new(Some(items[0].timestamp), LogCommand::Pop, items[0].data.clone()))
    }
}

/// What the read commands see in storage: no file at all is an empty
/// stack, not an error; a present file is decoded and replayed. A file
/// that does not follow the framing is the one failure.
pub fn load_items(contents: Option<&Vec<u8>>) -> (out: Result<Vec<Item>, ReadError>)
    ensures
        contents is None ==> (out matches Ok(v) && v@.len() == 0),
        contents matches Some(bytes) ==> match spec_read_all(bytes@) {
            Some(rs) => out matches Ok(v) && items_view(v@) == spec_stack(rs),
            None => out == Err::<Vec<Item>, ReadError>(ReadError::CorruptFrame),
        },
{
    match contents {
        None => Ok(Vec::new()),
        Some(bytes) => match Log::load_logs(bytes.as_slice()) {
            Ok(logs) => Ok(reconstruct(&logs)),
            Err(e) => Err(e),
        },
    }
}

/// The raw record sequence in file order, tombstones included. With no
/// file there is nothing to show, and that is reported rather than
/// hidden.
pub fn load_raw(contents: Option<&Vec<u8>>) -> (out: Result<Vec<Log>, ReadError>)
    ensures
        contents is None ==> out == Err::<Vec<Log>, ReadError>(ReadError::StorageMissing),
        contents matches Some(bytes) ==> match spec_read_all(bytes@) {
            Some(rs) => out matches Ok(v) && logs_view(v@) == rs,
            None => out == Err::<Vec<Log>, ReadError>(ReadError::CorruptFrame),
        },
{
    match contents {
        None => Err(ReadError::StorageMissing),
        Some(bytes) => Log::load_logs(bytes.as_slice()),
    }
}

} // verus!
