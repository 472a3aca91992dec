//! What clients ask of the server: the layout of their messages, which of
//! the units a command names may take its order, and how an order joins a
//! unit's queue.
//!
//! A message starts with its kind (one byte) and an order id (four bytes,
//! big-endian). A command then carries the fields of its kind, one byte of
//! queue order, and the ids of the units it is for, two bytes each, to the
//! end of the message. Coordinates travel as the bits of 64-bit floats.
use crate::data::aliases::{client_message_code, ClientMessage, QueueOrder};
use crate::data::uid_types::{USizeWrapper, UnitID};
use crate::libs::big_endian::{
    be16_at, be32_at, be32_bytes, be64_at, push_u32_be, read_u16_be, read_u32_be, read_u64_be,
};
use std::collections::VecDeque;
use vstd::prelude::*;

verus! {

/// What a command asks. A coordinate is kept as the bits of its float.
#[derive(Clone, Copy, Debug)]
pub enum CommandKind {
    Move { x_bits: u64, y_bits: u64 },
    AttackMove { x_bits: u64, y_bits: u64 },
    AttackTarget { target: u16 },
    Build { unit_type: u16, x_bits: u64, y_bits: u64 },
    Train { unit_type: u16, repeat: bool },
    Assist { target: u16 },
    Stop,
}

/// A command: its order id, what it asks, how the order joins the queues,
/// and the ids of the units it is for.
#[derive(Debug)]
pub struct Command {
    pub order_id: u32,
    pub kind: CommandKind,
    pub queue: QueueOrder,
    pub units: Vec<u16>,
}

/// What a message asks: a command, or one of the three descriptions the
/// server keeps.
#[derive(Debug)]
pub enum Request {
    Order(Command),
    MapInfo,
    UnitInfo,
    MissileInfo,
}

/// Why a message asks nothing.
#[derive(Clone, Copy, Debug, PartialEq, Eq)]
pub enum ParseError {
    /// The message has no byte.
    Empty,
    /// The first byte names no kind of message.
    UnknownKind,
    /// The message ends before its order id, or before its queue order.
    Truncated,
    /// The queue order byte names no queue order.
    BadQueueOrder,
}

/// A request without the unit ids of a command.
pub enum RequestHead {
    Order { order_id: u32, kind: CommandKind, queue: QueueOrder },
    MapInfo,
    UnitInfo,
    MissileInfo,
}

/// Where the queue order byte of a command of kind `k` stands: after the
/// kind, the order id and the fields of that kind.
pub open spec fn queue_pos(k: u8) -> int {
    5 + match k {
        0 | 1 => 16int,
        2 => 2,
        3 => 18,
        4 => 3,
        5 => 2,
        _ => 0,
    }
}

/// The fields of the command in `s`.
pub open spec fn kind_spec(s: Seq<u8>) -> CommandKind {
    match s[0] {
        0 => CommandKind::Move { x_bits: be64_at(s, 5) as u64, y_bits: be64_at(s, 13) as u64 },
        1 => CommandKind::AttackMove {
            x_bits: be64_at(s, 5) as u64,
            y_bits: be64_at(s, 13) as u64,
        },
        2 => CommandKind::AttackTarget { target: be16_at(s, 5) as u16 },
        3 => CommandKind::Build {
            unit_type: be16_at(s, 5) as u16,
            x_bits: be64_at(s, 7) as u64,
            y_bits: be64_at(s, 15) as u64,
        },
        4 => CommandKind::Train { unit_type: be16_at(s, 5) as u16, repeat: s[7] == 1 },
        5 => CommandKind::Assist { target: be16_at(s, 5) as u16 },
        _ => CommandKind::Stop,
    }
}

/// The queue order numbered `n`, for `n` below four.
pub open spec fn queue_from_code(n: u8) -> QueueOrder {
    match n {
        0 => QueueOrder::Prepend,
        1 => QueueOrder::Append,
        2 => QueueOrder::Replace,
        _ => QueueOrder::Clear,
    }
}

/// What the message `s` asks, but for the unit ids of a command.
pub open spec fn request_spec(s: Seq<u8>) -> Result<RequestHead, ParseError> {
    if s.len() == 0 {
        Err(ParseError::Empty)
    } else if s[0] >= 10 {
        Err(ParseError::UnknownKind)
    } else if s.len() < 5 {
        Err(ParseError::Truncated)
    } else if s[0] == 7 {
        Ok(RequestHead::MapInfo)
    } else if s[0] == 8 {
        Ok(RequestHead::UnitInfo)
    } else if s[0] == 9 {
        Ok(RequestHead::MissileInfo)
    } else if s.len() <= queue_pos(s[0]) {
        Err(ParseError::Truncated)
    } else if s[queue_pos(s[0])] >= 4 {
        Err(ParseError::BadQueueOrder)
    } else {
        Ok(
            RequestHead::Order {
                order_id: be32_at(s, 1) as u32,
                kind: kind_spec(s),
                queue: queue_from_code(s[queue_pos(s[0])]),
            },
        )
    }
}

/// The number that the `n` bytes of `s` from `pos` spell, most significant
/// first.
pub open spec fn be_from(s: Seq<u8>, pos: int, n: nat) -> int
    decreases n,
{
    if n == 0 {
        0
    } else {
        be_from(s, pos, (n - 1) as nat) * 256 + s[pos + n - 1]
    }
}

/// Where a command's fields lie in its message: after the kind byte, the
/// order id in bytes 1 to 4; a move or attack-move carries x in bytes 5 to
/// 12 and y in bytes 13 to 20, then its queue byte at 21; an attack or an
/// assist the target in bytes 5 and 6, queue byte at 7; a build the unit
/// type in bytes 5 and 6, x in bytes 7 to 14 and y in 15 to 22, queue byte
/// at 23; a training the unit type in bytes 5 and 6, whether to repeat in
/// byte 7 (1 for yes), queue byte at 8; a stop has its queue byte at 5. The
/// queue byte 0, 1, 2, 3 means prepend, append, replace, clear. Every number
/// is read most significant byte first.
pub proof fn lemma_command_layout(s: Seq<u8>)
    requires
        request_spec(s) matches Ok(RequestHead::Order { .. }),
    ensures
        request_spec(s) matches Ok(RequestHead::Order { order_id, kind, queue }) && {
            let q = if s[0] <= 1 {
                21int
            } else if s[0] == 2 || s[0] == 5 {
                7
            } else if s[0] == 3 {
                23
            } else if s[0] == 4 {
                8
            } else {
                5
            };
            &&& s.len() > q
            &&& order_id == be_from(s, 1, 4) as u32
            &&& (s[0] == 0 ==> kind == CommandKind::Move {
                x_bits: be_from(s, 5, 8) as u64,
                y_bits: be_from(s, 13, 8) as u64,
            })
            &&& (s[0] == 1 ==> kind == CommandKind::AttackMove {
                x_bits: be_from(s, 5, 8) as u64,
                y_bits: be_from(s, 13, 8) as u64,
            })
            &&& (s[0] == 2 ==> kind == CommandKind::AttackTarget { target: be_from(s, 5, 2) as u16 })
            &&& (s[0] == 3 ==> kind == CommandKind::Build {
                unit_type: be_from(s, 5, 2) as u16,
                x_bits: be_from(s, 7, 8) as u64,
                y_bits: be_from(s, 15, 8) as u64,
            })
            &&& (s[0] == 4 ==> kind == CommandKind::Train { unit_type: be_from(s, 5, 2) as u16, repeat: s[7] == 1 })
            &&& (s[0] == 5 ==> kind == CommandKind::Assist { target: be_from(s, 5, 2) as u16 })
            &&& (s[0] == 6 ==> kind == CommandKind::Stop)
            &&& (s[q] == 0 ==> queue == QueueOrder::Prepend)
            &&& (s[q] == 1 ==> queue == QueueOrder::Append)
            &&& (s[q] == 2 ==> queue == QueueOrder::Replace)
            &&& (s[q] == 3 ==> queue == QueueOrder::Clear)
        },
{
    reveal_with_fuel(be_from, 9);
    assert(be_from(s, 1, 4) == be32_at(s, 1));
    if s[0] <= 1 || s[0] == 3 {
        let p: int = if s[0] == 3 { 7 } else { 5 };
        assert(be_from(s, p, 8) == be64_at(s, p));
        assert(be_from(s, p + 8, 8) == be64_at(s, p + 8));
    }
    if 2 <= s[0] <= 5 {
        assert(be_from(s, 5, 2) == be16_at(s, 5));
    }
}

/// The 16-bit numbers that fill `s` from `pos` on, two bytes each, most
/// significant first; an odd byte at the end is left over.
pub open spec fn u16s_from(s: Seq<u8>, pos: int) -> Seq<u16> {
    Seq::new(((s.len() - pos) / 2) as nat, |k: int| be16_at(s, pos + 2 * k) as u16)
}

/// Which messages are read and which refused: an empty message is
/// refused as empty; a first byte of 10 or more names no kind; every
/// message needs its kind and four bytes of order id; kinds 7, 8 and 9 ask
/// for the map, the unit and the missile descriptions; a command (kinds 0
/// to 6) needs its fields and queue byte (at 21, 21, 7, 23, 8, 7, 5 for
/// kinds 0 to 6), and a queue byte of 4 or more names no queue order.
pub proof fn lemma_request_kinds(s: Seq<u8>)
    ensures
        ({
            let q = if s.len() == 0 {
                0
            } else if s[0] <= 1 {
                21int
            } else if s[0] == 2 || s[0] == 5 {
                7
            } else if s[0] == 3 {
                23
            } else if s[0] == 4 {
                8
            } else {
                5
            };
            &&& (request_spec(s) == Err::<RequestHead, ParseError>(ParseError::Empty) <==> s.len() == 0)
            &&& (request_spec(s) == Err::<RequestHead, ParseError>(ParseError::UnknownKind) <==> s.len() > 0
                && s[0] >= 10)
            &&& (request_spec(s) == Err::<RequestHead, ParseError>(ParseError::Truncated) <==> s.len() > 0 && s[0]
                < 10 && (s.len() < 5 || (s[0] <= 6 && s.len() <= q)))
            &&& (request_spec(s) == Err::<RequestHead, ParseError>(ParseError::BadQueueOrder) <==> s.len() >= 5
                && s[0] <= 6 && s.len() > q && s[q] >= 4)
            &&& (request_spec(s) == Ok::<RequestHead, ParseError>(RequestHead::MapInfo) <==> s.len() >= 5 && s[0]
                == 7)
            &&& (request_spec(s) == Ok::<RequestHead, ParseError>(RequestHead::UnitInfo) <==> s.len() >= 5 && s[0]
                == 8)
            &&& (request_spec(s) == Ok::<RequestHead, ParseError>(RequestHead::MissileInfo) <==> s.len() >= 5
                && s[0] == 9)
            &&& (request_spec(s) matches Ok(RequestHead::Order { .. }) <==> s.len() >= 5 && s[0] <= 6 && s.len()
                > q && s[q] < 4)
        }),
{
}

/// The unit ids of a command: the bytes after its queue byte, two to an
/// id, most significant first; an odd byte at the end belongs to no id.
pub proof fn lemma_unit_ids(s: Seq<u8>, pos: int)
    requires
        0 <= pos <= s.len(),
    ensures
        u16s_from(s, pos).len() == (s.len() - pos) / 2,
        forall|k: int|
            0 <= k < (s.len() - pos) / 2 ==> #[trigger] u16s_from(s, pos)[k] == be_from(s, pos + 2 * k, 2),
{
    reveal_with_fuel(be_from, 3);
}

/// Reads 16-bit numbers from `pos` to the end of `s`.
fn read_u16s(s: &[u8], pos: usize) -> (r: Vec<u16>)
    requires
        pos <= s@.len(),
    ensures
        r@ == u16s_from(s@, pos as int),
{
    let mut r: Vec<u16> = Vec::new();
    let mut p = pos;
    while s.len() - p >= 2
        invariant
            pos <= p <= s@.len(),
            p - pos == 2 * r@.len(),
            forall|k: int| 0 <= k < r@.len() ==> r@[k] == be16_at(s@, pos + 2 * k) as u16,
        decreases s@.len() - p,
    {
        let v = read_u16_be(s, p);
        r.push(v);
        p = p + 2;
    }
    assert(r@ =~= u16s_from(s@, pos as int));
    r
}

/// Reads what a client's message asks.
pub fn parse_request(s: &[u8]) -> (r: Result<Request, ParseError>)
    ensures
        match r {
            Ok(Request::Order(c)) => request_spec(s@) == Ok::<RequestHead, ParseError>(
                RequestHead::Order { order_id: c.order_id, kind: c.kind, queue: c.queue },
            ) && c.units@ == u16s_from(s@, queue_pos(s@[0]) + 1),
            Ok(Request::MapInfo) => request_spec(s@) == Ok::<RequestHead, ParseError>(
                RequestHead::MapInfo,
            ),
            Ok(Request::UnitInfo) => request_spec(s@) == Ok::<RequestHead, ParseError>(
                RequestHead::UnitInfo,
            ),
            Ok(Request::MissileInfo) => request_spec(s@) == Ok::<RequestHead, ParseError>(
                RequestHead::MissileInfo,
            ),
            Err(e) => request_spec(s@) == Err::<RequestHead, ParseError>(e),
        },
{
    let n = s.len();
    if n == 0 {
        return Err(ParseError::Empty);
    }
    let k = s[0];
    if k >= 10 {
        return Err(ParseError::UnknownKind);
    }
    if n < 5 {
        return Err(ParseError::Truncated);
    }
    let order_id = read_u32_be(s, 1);
    if k == 7 {
        return Ok(Request::MapInfo);
    }
    if k == 8 {
        return Ok(Request::UnitInfo);
    }
    if k == 9 {
        return Ok(Request::MissileInfo);
    }
    let qpos: usize = match k {
        0 | 1 => 21,
        2 => 7,
        3 => 23,
        4 => 8,
        5 => 7,
        _ => 5,
    };
    assert(qpos == queue_pos(k));
    if n <= qpos {
        return Err(ParseError::Truncated);
    }
    let queue = match QueueOrder::from_u8(s[qpos]) {
        Some(q) => q,
        None => {
            return Err(ParseError::BadQueueOrder);
        },
    };
    assert(queue == queue_from_code(s@[qpos as int]));
    let kind = match k {
        0 => CommandKind::Move { x_bits: read_u64_be(s, 5), y_bits: read_u64_be(s, 13) },
        1 => CommandKind::AttackMove { x_bits: read_u64_be(s, 5), y_bits: read_u64_be(s, 13) },
        2 => CommandKind::AttackTarget { target: read_u16_be(s, 5) },
        3 => CommandKind::Build {
            unit_type: read_u16_be(s, 5),
            x_bits: read_u64_be(s, 7),
            y_bits: read_u64_be(s, 15),
        },
        4 => CommandKind::Train { unit_type: read_u16_be(s, 5), repeat: s[7] == 1 },
        5 => CommandKind::Assist { target: read_u16_be(s, 5) },
        _ => CommandKind::Stop,
    };
    let units = read_u16s(s, qpos + 1);
    Ok(Request::Order(Command { order_id, kind, queue, units }))
}

/// Whether the unit `id` may take an order from team `team`: it exists, it
/// belongs to that team, and it does not act on its own.
pub open spec fn may_order(
    id: u16,
    max_units: int,
    unit_teams: Seq<usize>,
    automatic: Seq<bool>,
    team: usize,
) -> bool {
    id < max_units && unit_teams[id as int] == team && !automatic[id as int]
}

/// The ids among `ids` that may take an order from team `team`, in order.
pub open spec fn order_units_spec(
    ids: Seq<u16>,
    max_units: int,
    unit_teams: Seq<usize>,
    automatic: Seq<bool>,
    team: usize,
) -> Seq<u16>
    decreases ids.len(),
{
    if ids.len() == 0 {
        Seq::empty()
    } else {
        let rest = order_units_spec(ids.drop_last(), max_units, unit_teams, automatic, team);
        if may_order(ids.last(), max_units, unit_teams, automatic, team) {
            rest.push(ids.last())
        } else {
            rest
        }
    }
}

/// The units an order goes to are exactly, in the order the message lists
/// them, the ids below `max_units` of units of the ordering team that are
/// not under automatic control.
pub proof fn lemma_order_units_filter(
    ids: Seq<u16>,
    max_units: int,
    unit_teams: Seq<usize>,
    automatic: Seq<bool>,
    team: usize,
)
    ensures
        order_units_spec(ids, max_units, unit_teams, automatic, team) == ids.filter(
            |id: u16| id < max_units && unit_teams[id as int] == team && !automatic[id as int],
        ),
    decreases ids.len(),
{
    reveal(Seq::filter);
    if ids.len() > 0 {
        lemma_order_units_filter(ids.drop_last(), max_units, unit_teams, automatic, team);
    }
}

/// The units among `ids` that may take an order from team `team`, in order;
/// `unit_teams` and `automatic` give, by unit id, each unit's team and
/// whether it acts on its own.
pub fn order_units(
    ids: &[u16],
    max_units: usize,
    unit_teams: &[usize],
    automatic: &[bool],
    team: usize,
) -> (r: Vec<UnitID>)
    requires
        max_units <= unit_teams@.len(),
        max_units <= automatic@.len(),
    ensures
        r@.len() == order_units_spec(ids@, max_units as int, unit_teams@, automatic@, team).len(),
        forall|k: int|
            0 <= k < r@.len() ==> r@[k].id_value() == order_units_spec(
                ids@,
                max_units as int,
                unit_teams@,
                automatic@,
                team,
            )[k],
{
    let mut r: Vec<UnitID> = Vec::new();
    let mut i: usize = 0;
    assert(ids@.take(0) =~= Seq::<u16>::empty());
    while i < ids.len()
        invariant
            i <= ids@.len(),
            max_units <= unit_teams@.len(),
            max_units <= automatic@.len(),
            r@.len() == order_units_spec(
                ids@.take(i as int),
                max_units as int,
                unit_teams@,
                automatic@,
                team,
            ).len(),
            forall|k: int|
                0 <= k < r@.len() ==> r@[k].id_value() == order_units_spec(
                    ids@.take(i as int),
                    max_units as int,
                    unit_teams@,
                    automatic@,
                    team,
                )[k],
        decreases ids@.len() - i,
    {
        assert(ids@.take(i + 1).drop_last() =~= ids@.take(i as int));
        assert(ids@.take(i + 1).last() == ids@[i as int]);
        let id = ids[i];
        let ix = id as usize;
        if ix < max_units && unit_teams[ix] == team && !automatic[ix] {
            r.push(UnitID::usize_wrap(ix));
        }
        i = i + 1;
    }
    assert(ids@.take(i as int) =~= ids@);
    r
}

/// What a queue becomes when an order joins it: in front, at the back, in
/// place of all the others, or (to clear it) not at all.
pub open spec fn queued<T>(queue: Seq<T>, how: QueueOrder, item: T) -> Seq<T> {
    match how {
        QueueOrder::Prepend => seq![item] + queue,
        QueueOrder::Append => queue.push(item),
        QueueOrder::Replace => seq![item],
        QueueOrder::Clear => Seq::empty(),
    }
}

/// How each queue order places an order: prepending puts it first, before
/// the whole queue; appending puts it last, after the whole queue;
/// replacing leaves it alone in the queue; clearing empties the queue.
pub proof fn lemma_queue_orders<T>(queue: Seq<T>, item: T)
    ensures
        queued(queue, QueueOrder::Prepend, item).len() == queue.len() + 1,
        queued(queue, QueueOrder::Prepend, item)[0] == item,
        forall|k: int| 0 <= k < queue.len() ==> #[trigger] queued(queue, QueueOrder::Prepend, item)[k + 1] == queue[k],
        queued(queue, QueueOrder::Append, item).len() == queue.len() + 1,
        queued(queue, QueueOrder::Append, item)[queue.len() as int] == item,
        forall|k: int| 0 <= k < queue.len() ==> #[trigger] queued(queue, QueueOrder::Append, item)[k] == queue[k],
        queued(queue, QueueOrder::Replace, item).len() == 1,
        queued(queue, QueueOrder::Replace, item)[0] == item,
        queued(queue, QueueOrder::Clear, item).len() == 0,
{
}

/// Puts an order into a unit's queue as `how` says.
pub fn apply_queue_order<T>(queue: &mut VecDeque<T>, how: QueueOrder, item: T)
    ensures
        final(queue)@ == queued(old(queue)@, how, item),
{
    match how {
        QueueOrder::Prepend => {
            queue.push_front(item);
        },
        QueueOrder::Append => {
            queue.push_back(item);
        },
        QueueOrder::Replace => {
            queue.clear();
            queue.push_back(item);
        },
        QueueOrder::Clear => {
            queue.clear();
        },
    }
}

/// Whether joining a training queue as `how` says first refunds the
/// training under way: it does, unless the order joins at the back.
pub fn refunds_training(how: QueueOrder) -> (r: bool)
    ensures
        r == (how != QueueOrder::Append),
{
    match how {
        QueueOrder::Append => false,
        _ => true,
    }
}

/// A queue order keeps the order it puts in: after any queue order but
/// clearing, the queue holds the new order, at the front or at the back.
pub proof fn lemma_queued_holds_item<T>(queue: Seq<T>, how: QueueOrder, item: T)
    requires
        how != QueueOrder::Clear,
    ensures
        queued(queue, how, item).contains(item),
        how == QueueOrder::Prepend || how == QueueOrder::Replace ==> queued(queue, how, item)[0]
            == item,
        how == QueueOrder::Append ==> queued(queue, how, item).last() == item,
        how == QueueOrder::Prepend || how == QueueOrder::Append ==> queued(queue, how, item).len()
            == queue.len() + 1,
{
    let q = queued(queue, how, item);
    match how {
        QueueOrder::Prepend => {
            assert(q[0] == item);
        },
        QueueOrder::Append => {
            assert(q[q.len() - 1] == item);
        },
        _ => {
            assert(q[0] == item);
        },
    }
}


/// Appends the bytes of `src` to `out`.
fn append_bytes(out: &mut Vec<u8>, src: &[u8])
    ensures
        final(out)@ == old(out)@ + src@,
{
    let mut i: usize = 0;
    while i < src.len()
        invariant
            i <= src@.len(),
            out@ == old(out)@ + src@.take(i as int),
        decreases src@.len() - i,
    {
        out.push(src[i]);
        i = i + 1;
        assert(out@ =~= old(out)@ + src@.take(i as int));
    }
    assert(src@.take(i as int) =~= src@);
}

/// The description frames of kind `code`: for each description in turn,
/// the kind byte, the length as four big-endian bytes, then its bytes.
pub open spec fn framed(code: u8, descs: Seq<Seq<u8>>) -> Seq<u8>
    decreases descs.len(),
{
    if descs.len() == 0 {
        seq![]
    } else {
        framed(code, descs.drop_last()) + seq![code] + be32_bytes(descs.last().len() as int)
            + descs.last()
    }
}

/// The bytes of each description.
pub open spec fn desc_bytes(descs: Seq<Vec<u8>>) -> Seq<Seq<u8>> {
    descs.map_values(|v: Vec<u8>| v@)
}

/// The descriptions of one kind (units or missiles) as the server sends
/// them: each framed by the kind byte and its length in four big-endian
/// bytes, one after the other.
pub fn descriptions_message(kind: ClientMessage, descs: &[Vec<u8>]) -> (r: Vec<u8>)
    requires
        forall|i: int| 0 <= i < descs@.len() ==> #[trigger] descs@[i]@.len() <= u32::MAX,
    ensures
        r@ == framed(client_message_code(kind) as u8, desc_bytes(descs@)),
{
    let code = kind.code();
    let mut out: Vec<u8> = Vec::new();
    let mut i: usize = 0;
    while i < descs.len()
        invariant
            i <= descs@.len(),
            code == client_message_code(kind),
            forall|j: int| 0 <= j < descs@.len() ==> #[trigger] descs@[j]@.len() <= u32::MAX,
            out@ == framed(code, desc_bytes(descs@.take(i as int))),
        decreases descs@.len() - i,
    {
        let d = &descs[i];
        assert(d@.len() <= u32::MAX);
        out.push(code);
        push_u32_be(&mut out, d.len() as u32);
        append_bytes(&mut out, d.as_slice());
        proof {
            let t = desc_bytes(descs@.take(i + 1));
            assert(t.drop_last() =~= desc_bytes(descs@.take(i as int)));
            assert(t.last() == d@);
        }
        i = i + 1;
    }
    assert(descs@.take(i as int) =~= descs@);
    out
}

/// A description the server keeps (of the kinds of units or of missiles),
/// as a player receives it: the frame number, then the description.
pub fn info_message(frame_number: u32, encoded: &[u8]) -> (r: Vec<u8>)
    ensures
        r@ == be32_bytes(frame_number as int) + encoded@,
{
    let mut out: Vec<u8> = Vec::new();
    push_u32_be(&mut out, frame_number);
    append_bytes(&mut out, encoded);
    out
}

/// The map as a player of team `team` receives it: the frame number, the
/// map-info kind, the team (its low eight bits), then the encoded map.
pub fn map_info_message(frame_number: u32, team: usize, encoded_map: &[u8]) -> (r: Vec<u8>)
    ensures
        r@ == be32_bytes(frame_number as int) + seq![
            client_message_code(ClientMessage::MapInfo) as u8,
            team as u8,
        ] + encoded_map@,
{
    let mut out: Vec<u8> = Vec::new();
    push_u32_be(&mut out, frame_number);
    out.push(ClientMessage::MapInfo.code());
    out.push(team as u8);
    let ghost head = out@;
    append_bytes(&mut out, encoded_map);
    assert(head =~= be32_bytes(frame_number as int) + seq![
        client_message_code(ClientMessage::MapInfo) as u8,
        team as u8,
    ]);
    out
}

} // verus!
