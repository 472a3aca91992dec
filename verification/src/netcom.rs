//! The greeting a client sends when it connects: its name and its password,
//! each a big-endian 16-bit length followed by that many bytes of UTF-8;
//! the roster it is checked against; the connected players and the queue of
//! their binary messages.
use crate::libs::big_endian::{be16_at, be16_bytes, read_u16_be};
use vstd::prelude::*;
use vstd::utf8::{decode_utf8, valid_utf8};

verus! {

/// Where a length-prefixed text that starts at `pos` ends: after its
/// announced length, or at the end of the buffer if that comes first.
pub open spec fn text_end(s: Seq<u8>, pos: int) -> int {
    let want = pos + 2 + be16_at(s, pos);
    if want < s.len() {
        want
    } else {
        s.len() as int
    }
}

/// The bytes of the text that starts at `pos`.
pub open spec fn text_bytes(s: Seq<u8>, pos: int) -> Seq<u8> {
    s.subrange(pos + 2, text_end(s, pos))
}

/// The text that starts at `pos`, if its bytes are valid UTF-8.
pub open spec fn text_spec(s: Seq<u8>, pos: int) -> Option<Seq<char>> {
    if valid_utf8(text_bytes(s, pos)) {
        Some(decode_utf8(text_bytes(s, pos)))
    } else {
        None
    }
}

/// Whether reading the name, and the password after a valid name, finds its
/// two length bytes each time.
pub open spec fn greeting_readable(s: Seq<u8>) -> bool {
    &&& s.len() >= 2
    &&& text_spec(s, 0) is Some ==> text_end(s, 0) + 2 <= s.len()
}

/// The greeting for a name and a password: the bytes of each after its
/// length as a big-endian 16-bit number.
pub open spec fn greeting(name: Seq<u8>, pass: Seq<u8>) -> Seq<u8> {
    be16_bytes(name.len() as int) + name + be16_bytes(pass.len() as int) + pass
}

/// Two bytes written for a number below 65536 read back as that number.
proof fn lemma_be16_round_trip(s: Seq<u8>, pos: int, n: int)
    requires
        0 <= n < 65536,
        0 <= pos,
        pos + 2 <= s.len(),
        s[pos] == be16_bytes(n)[0],
        s[pos + 1] == be16_bytes(n)[1],
    ensures
        be16_at(s, pos) == n,
{
    assert(0 <= n / 256 < 256);
    assert(0 <= n % 256 < 256);
    assert(n / 256 * 256 + n % 256 == n);
}

/// Reading a greeting gives back the name and the password it was made of,
/// for texts of valid UTF-8 shorter than 65536 bytes.
pub proof fn lemma_greeting_round_trip(name: Seq<u8>, pass: Seq<u8>)
    requires
        name.len() < 65536,
        pass.len() < 65536,
        valid_utf8(name),
        valid_utf8(pass),
    ensures
        greeting_readable(greeting(name, pass)),
        text_end(greeting(name, pass), 0) == name.len() + 2,
        text_spec(greeting(name, pass), 0) == Some(decode_utf8(name)),
        text_spec(greeting(name, pass), text_end(greeting(name, pass), 0)) == Some(decode_utf8(pass)),
{
    let s = greeting(name, pass);
    let n = name.len() as int;
    let m = pass.len() as int;
    assert(s.len() == n + m + 4);
    lemma_be16_round_trip(s, 0, n);
    assert(text_end(s, 0) == n + 2);
    assert(text_bytes(s, 0) =~= name);
    let p = n + 2;
    assert(s[p] == be16_bytes(m)[0]);
    assert(s[p + 1] == be16_bytes(m)[1]);
    lemma_be16_round_trip(s, p, m);
    assert(text_end(s, p) == s.len());
    assert(text_bytes(s, p) =~= pass);
}

/// `String::from_utf8` of std: succeeds exactly when the bytes are valid
/// UTF-8, and then holds the characters they encode.
#[verifier::external_body]
fn string_from_utf8(bytes: Vec<u8>) -> (r: Option<String>)
    ensures
        r is Some <==> valid_utf8(bytes@),
        r is Some ==> r.unwrap()@ == decode_utf8(bytes@),
{
    String::from_utf8(bytes).ok()
}

/// Reads the length-prefixed text at `pos`; returns it, if it is valid
/// UTF-8, and the position after it.
fn text(data: &[u8], pos: usize) -> (r: (Option<String>, usize))
    requires
        pos + 2 <= data@.len(),
    ensures
        r.1 == text_end(data@, pos as int),
        r.0 is Some <==> text_spec(data@, pos as int) is Some,
        r.0 is Some ==> r.0.unwrap()@ == text_spec(data@, pos as int).unwrap(),
{
    let n = data.len();
    let text_len = read_u16_be(data, pos);
    let start = pos + 2;
    let end = if text_len as usize <= n - start {
        start + text_len as usize
    } else {
        n
    };
    let mut buff: Vec<u8> = Vec::new();
    let mut i = start;
    while i < end
        invariant
            start <= i <= end <= data@.len(),
            buff@ == data@.subrange(start as int, i as int),
        decreases end - i,
    {
        buff.push(data[i]);
        i = i + 1;
    }
    assert(buff@ == text_bytes(data@, pos as int));
    (string_from_utf8(buff), end)
}

/// The name and the password of a greeting: `None` when either of them is
/// not valid UTF-8.
pub fn name_and_pass(data: &[u8]) -> (r: Option<(String, String)>)
    requires
        greeting_readable(data@),
    ensures
        r is Some <==> (text_spec(data@, 0) is Some && text_spec(
            data@,
            text_end(data@, 0),
        ) is Some),
        r is Some ==> r.unwrap().0@ == text_spec(data@, 0).unwrap() && r.unwrap().1@
            == text_spec(data@, text_end(data@, 0)).unwrap(),
{
    let (name, next) = text(data, 0);
    match name {
        None => None,
        Some(name) => {
            let (pass, _) = text(data, next);
            match pass {
                None => None,
                Some(pass) => Some((name, pass)),
            }
        },
    }
}


/// The teams of the roster entries with this name and password, in roster
/// order.
pub open spec fn matching_teams_spec(
    roster: Seq<(String, String, usize)>,
    name: Seq<char>,
    pass: Seq<char>,
) -> Seq<usize>
    decreases roster.len(),
{
    if roster.len() == 0 {
        Seq::empty()
    } else {
        let rest = matching_teams_spec(roster.drop_last(), name, pass);
        if roster.last().0@ == name && roster.last().1@ == pass {
            rest.push(roster.last().2)
        } else {
            rest
        }
    }
}

/// The teams of the roster entries that a greeting's name and password match:
/// the connection is accepted when there is one, and then speaks for the last.
pub fn matching_teams(roster: &[(String, String, usize)], name: &String, pass: &String) -> (r:
    Vec<usize>)
    ensures
        r@ == matching_teams_spec(roster@, name@, pass@),
{
    let mut r: Vec<usize> = Vec::new();
    let mut i: usize = 0;
    assert(roster@.take(0) =~= Seq::<(String, String, usize)>::empty());
    while i < roster.len()
        invariant
            i <= roster@.len(),
            r@ == matching_teams_spec(roster@.take(i as int), name@, pass@),
        decreases roster@.len() - i,
    {
        assert(roster@.take(i + 1).drop_last() =~= roster@.take(i as int));
        assert(roster@.take(i + 1).last() == roster@[i as int]);
        if roster[i].0 == *name && roster[i].1 == *pass {
            r.push(roster[i].2);
        }
        i = i + 1;
    }
    assert(roster@.take(i as int) =~= roster@);
    r
}

/// A connected player: its name, password and team, and the handle that
/// reaches its connection.
pub struct Player<C> {
    pub name: String,
    pub pass: String,
    pub team: usize,
    pub client: C,
}

/// The connected players, in the order they connected, and the binary
/// messages they sent, with the sender's name and team, oldest first.
pub struct Netcom<C> {
    players: Vec<Player<C>>,
    messages: Vec<(String, usize, Vec<u8>)>,
}

impl<C> Netcom<C> {
    /// The connected players.
    pub closed spec fn players(&self) -> Seq<Player<C>> {
        self.players@
    }

    /// The queued messages, oldest first.
    pub closed spec fn messages(&self) -> Seq<(String, usize, Vec<u8>)> {
        self.messages@
    }

    /// No player connected and no message queued.
    pub fn new() -> (r: Netcom<C>)
        ensures
            r.players() == Seq::<Player<C>>::empty(),
            r.messages() == Seq::<(String, usize, Vec<u8>)>::empty(),
    {
        Netcom { players: Vec::new(), messages: Vec::new() }
    }

    /// Adds a connected player at the end.
    pub fn add_player(&mut self, player: Player<C>)
        ensures
            final(self).players() == old(self).players().push(player),
            final(self).messages() == old(self).messages(),
    {
        self.players.push(player);
    }

    /// Queues a binary message from the player `name` of team `team`.
    pub fn push_message(&mut self, name: String, team: usize, bytes: Vec<u8>)
        ensures
            final(self).players() == old(self).players(),
            final(self).messages() == old(self).messages().push((name, team, bytes)),
    {
        self.messages.push((name, team, bytes));
    }

    /// How many players are connected.
    pub fn len(&self) -> (r: usize)
        ensures
            r == self.players().len(),
    {
        self.players.len()
    }

    /// The `i`th connected player.
    pub fn player(&self, i: usize) -> (r: &Player<C>)
        requires
            i < self.players().len(),
        ensures
            *r == self.players()[i as int],
    {
        &self.players[i]
    }
}

/// Takes the queued messages, oldest first, and leaves the queue empty.
pub fn get_messages<C>(net: &mut Netcom<C>) -> (r: Vec<(String, usize, Vec<u8>)>)
    ensures
        r@ == old(net).messages(),
        final(net).messages() == Seq::<(String, usize, Vec<u8>)>::empty(),
        final(net).players() == old(net).players(),
{
    let mut taken: Vec<(String, usize, Vec<u8>)> = Vec::new();
    std::mem::swap(&mut taken, &mut net.messages);
    taken
}

} // verus!
