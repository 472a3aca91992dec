//! Logging players in over a websocket and routing their messages: the
//! roster of names, passwords and teams, what a connection does with each
//! message it receives, and the table of connected players with the queue of
//! their binary messages.
use vstd::prelude::*;

verus! {

/// The password and team that the roster gives `name`: those of its last
/// entry under that name, as a map filled from the roster in order keeps them.
pub open spec fn roster_entry(roster: Seq<(String, String, usize)>, name: Seq<char>) -> Option<
    (Seq<char>, usize),
>
    decreases roster.len(),
{
    if roster.len() == 0 {
        None
    } else if roster.last().0@ == name {
        Some((roster.last().1@, roster.last().2))
    } else {
        roster_entry(roster.drop_last(), name)
    }
}

/// The password and team that the roster gives `name`, if it names it.
pub fn lookup(roster: &[(String, String, usize)], name: &String) -> (r: Option<(String, usize)>)
    ensures
        match r {
            None => roster_entry(roster@, name@) is None,
            Some((pass, team)) => roster_entry(roster@, name@) == Some((pass@, team)),
        },
{
    let mut i = roster.len();
    assert(roster@.take(i as int) =~= roster@);
    while i > 0
        invariant
            i <= roster@.len(),
            roster_entry(roster@, name@) == roster_entry(roster@.take(i as int), name@),
        decreases i,
    {
        let ghost prefix = roster@.take(i as int);
        assert(prefix.drop_last() =~= roster@.take(i - 1));
        assert(prefix.last() == roster@[i - 1]);
        if roster[i - 1].0 == *name {
            return Some((roster[i - 1].1.clone(), roster[i - 1].2));
        }
        i = i - 1;
    }
    None
}

/// A message from a connection.
pub enum Incoming {
    Text(String),
    Binary(Vec<u8>),
}

/// What the connection does after a message.
pub enum Outcome {
    /// Nothing more.
    Continue,
    /// The player has logged in: it joins the connected players.
    Accept,
    /// A logged-in player sent this text: the server shows it.
    Show(String),
    /// The password does not match the roster's: the connection is closed and
    /// the message fails with a protocol error.
    WrongPassword,
    /// The roster has no such name: the message fails with a protocol error.
    UnknownPlayer,
    /// A logged-in player sent these bytes: they join the message queue.
    Queue(Vec<u8>),
    /// Bytes from a player that has not logged in: the message fails with a
    /// protocol error.
    NotVerified,
}

/// What a connection knows of its player: the first text it sends is its
/// name, the second its password; once both match the roster it is verified
/// and has the roster's team.
pub struct Player {
    pub verified: bool,
    pub has_name: bool,
    pub has_pass: bool,
    pub name: String,
    pub pass: String,
    pub team: usize,
}

/// The player after a text arrives, before the roster is consulted.
pub open spec fn take_text(p: Player, txt: String) -> Player {
    if !p.has_name {
        Player { name: txt, has_name: true, ..p }
    } else if !p.has_pass {
        Player { pass: txt, has_pass: true, ..p }
    } else {
        p
    }
}

/// The player and the outcome after a message.
pub open spec fn step(p: Player, msg: Incoming, roster: Seq<(String, String, usize)>) -> (
    Player,
    Outcome,
) {
    match msg {
        Incoming::Text(txt) => {
            let q = take_text(p, txt);
            if q.has_name && q.has_pass && !q.verified {
                match roster_entry(roster, q.name@) {
                    Some((pass, team)) => if q.pass@ == pass {
                        (Player { team: team, verified: true, ..q }, Outcome::Accept)
                    } else {
                        (q, Outcome::WrongPassword)
                    },
                    None => (q, Outcome::UnknownPlayer),
                }
            } else if q.verified {
                (q, Outcome::Show(txt))
            } else {
                (q, Outcome::Continue)
            }
        },
        Incoming::Binary(bytes) => if p.verified {
            (p, Outcome::Queue(bytes))
        } else {
            (p, Outcome::NotVerified)
        },
    }
}

/// A player is verified only once it has a name and a password that the
/// roster gives, and then it has the roster's team.
pub open spec fn login_consistent(p: Player, roster: Seq<(String, String, usize)>) -> bool {
    p.verified ==> p.has_name && p.has_pass && roster_entry(roster, p.name@) == Some(
        (p.pass@, p.team),
    )
}

impl Player {
    /// A connection that has received nothing yet.
    pub fn new() -> (r: Player)
        ensures
            !r.verified,
            !r.has_name,
            !r.has_pass,
            r.name@ == Seq::<char>::empty(),
            r.pass@ == Seq::<char>::empty(),
            r.team == 0,
    {
        Player {
            verified: false,
            has_name: false,
            has_pass: false,
            name: String::new(),
            pass: String::new(),
            team: 0,
        }
    }

    /// Takes one message from the connection and says what to do with it.
    pub fn on_message(&mut self, msg: Incoming, roster: &[(String, String, usize)]) -> (r:
        Outcome)
        ensures
            (*final(self), r) == step(*old(self), msg, roster@),
    {
        match msg {
            Incoming::Text(txt) => {
                if !self.has_name {
                    self.name = txt.clone();
                    self.has_name = true;
                } else if !self.has_pass {
                    self.pass = txt.clone();
                    self.has_pass = true;
                }
                if self.has_name && self.has_pass && !self.verified {
                    match lookup(roster, &self.name) {
                        Some((pass, team)) => {
                            if self.pass == pass {
                                self.team = team;
                                self.verified = true;
                                Outcome::Accept
                            } else {
                                Outcome::WrongPassword
                            }
                        },
                        None => Outcome::UnknownPlayer,
                    }
                } else if self.verified {
                    Outcome::Show(txt)
                } else {
                    Outcome::Continue
                }
            },
            Incoming::Binary(bytes) => {
                if self.verified {
                    Outcome::Queue(bytes)
                } else {
                    Outcome::NotVerified
                }
            },
        }
    }
}

/// Every message keeps a player's login consistent with the roster; a
/// verified player stays verified, under the same name, password and team,
/// and is never accepted a second time.
pub proof fn lemma_login_kept(p: Player, msg: Incoming, roster: Seq<(String, String, usize)>)
    requires
        login_consistent(p, roster),
    ensures
        login_consistent(step(p, msg, roster).0, roster),
        p.verified ==> {
            let q = step(p, msg, roster).0;
            &&& q.verified
            &&& q.name == p.name
            &&& q.pass == p.pass
            &&& q.team == p.team
            &&& step(p, msg, roster).1 != Outcome::Accept
        },
{
}

/// A player is accepted exactly when a text completes a name and password
/// that the roster gives.
pub proof fn lemma_accept_only_on_match(p: Player, msg: Incoming, roster: Seq<(String, String, usize)>)
    requires
        step(p, msg, roster).1 == Outcome::Accept,
    ensures
        !p.verified,
        step(p, msg, roster).0.verified,
        roster_entry(roster, step(p, msg, roster).0.name@) == Some(
            (step(p, msg, roster).0.pass@, step(p, msg, roster).0.team),
        ),
{
}


/// The first position in `players` of an entry named `name`.
pub open spec fn position_of<P>(players: Seq<(String, usize, P)>, name: Seq<char>) -> Option<int> {
    if exists|i: int| 0 <= i < players.len() && players[i].0@ == name {
        Some(
            choose|i: int|
                0 <= i < players.len() && players[i].0@ == name && forall|j: int|
                    0 <= j < i ==> players[j].0@ != name,
        )
    } else {
        None
    }
}

/// The connected players, each with its name, its team and the handle that
/// reaches its connection, and the binary messages they sent, with the
/// sender's name and team, oldest first.
pub struct Netcom<P> {
    players: Vec<(String, usize, P)>,
    messages: Vec<(String, usize, Vec<u8>)>,
}

impl<P> Netcom<P> {
    /// The connected players, in the order they joined.
    pub closed spec fn players(&self) -> Seq<(String, usize, P)> {
        self.players@
    }

    /// The queued messages, oldest first.
    pub closed spec fn messages(&self) -> Seq<(String, usize, Vec<u8>)> {
        self.messages@
    }

    /// No two connected players share a name.
    pub open spec fn wf(&self) -> bool {
        forall|i: int, j: int|
            0 <= i < j < self.players().len() ==> #[trigger] self.players()[i].0@
                != #[trigger] self.players()[j].0@
    }

    /// No player connected and no message queued.
    pub fn new() -> (r: Netcom<P>)
        ensures
            r.wf(),
            r.players() == Seq::<(String, usize, P)>::empty(),
            r.messages() == Seq::<(String, usize, Vec<u8>)>::empty(),
    {
        Netcom { players: Vec::new(), messages: Vec::new() }
    }

    /// Where the player named `name` stands among the connected players.
    pub fn player_index(&self, name: &String) -> (r: Option<usize>)
        ensures
            match r {
                None => position_of(self.players(), name@) is None,
                Some(i) => position_of(self.players(), name@) == Some(i as int),
            },
    {
        let mut i: usize = 0;
        while i < self.players.len()
            invariant
                i <= self.players@.len(),
                forall|j: int| 0 <= j < i ==> self.players@[j].0@ != name@,
            decreases self.players@.len() - i,
        {
            if self.players[i].0 == *name {
                let ghost c = choose|k: int|
                    0 <= k < self.players@.len() && self.players@[k].0@ == name@ && forall|j: int|
                        0 <= j < k ==> self.players@[j].0@ != name@;
                assert(0 <= i < self.players@.len() && self.players@[i as int].0@ == name@);
                assert(c == i as int) by {
                    if c < i {
                        assert(self.players@[c].0@ != name@);
                    } else if c > i {
                        assert(self.players@[i as int].0@ != name@);
                    }
                }
                return Some(i);
            }
            i = i + 1;
        }
        None
    }

    /// Connects a player: the entry under its name is replaced, or the player
    /// joins at the end.
    pub fn connect(&mut self, name: String, team: usize, handle: P)
        requires
            old(self).wf(),
        ensures
            final(self).wf(),
            final(self).messages() == old(self).messages(),
            match position_of(old(self).players(), name@) {
                Some(i) => final(self).players() == old(self).players().update(
                    i,
                    (name, team, handle),
                ),
                None => final(self).players() == old(self).players().push((name, team, handle)),
            },
    {
        let ghost new_entry = (name, team, handle);
        match self.player_index(&name) {
            Some(i) => {
                self.players.set(i, (name, team, handle));
            },
            None => {
                self.players.push((name, team, handle));
            },
        }
        assert forall|i: int, j: int|
            0 <= i < j < self.players().len() implies #[trigger] self.players()[i].0@
            != #[trigger] self.players()[j].0@ by {
            if position_of(old(self).players(), new_entry.0@) is None {
                if j == old(self).players().len() {
                    assert(old(self).players()[i].0@ != new_entry.0@);
                }
            }
        }
    }

    /// Disconnects the player named `name`, if it is connected.
    pub fn remove_player(&mut self, name: &String)
        requires
            old(self).wf(),
        ensures
            final(self).wf(),
            final(self).messages() == old(self).messages(),
            match position_of(old(self).players(), name@) {
                Some(i) => final(self).players() == old(self).players().remove(i),
                None => final(self).players() == old(self).players(),
            },
    {
        match self.player_index(name) {
            Some(i) => {
                let ghost before = self.players@;
                self.players.remove(i);
                assert forall|a: int, b: int|
                    0 <= a < b < self.players().len() implies #[trigger] self.players()[a].0@
                    != #[trigger] self.players()[b].0@ by {
                    let a0 = if a < i { a } else { a + 1 };
                    let b0 = if b < i { b } else { b + 1 };
                    assert(before[a0].0@ != before[b0].0@);
                }
            },
            None => {},
        }
    }

    /// Queues a binary message from the player `name` of team `team`.
    pub fn push_message(&mut self, name: String, team: usize, bytes: Vec<u8>)
        ensures
            final(self).players() == old(self).players(),
            final(self).messages() == old(self).messages().push((name, team, bytes)),
    {
        self.messages.push((name, team, bytes));
    }

    /// How many players are connected.
    pub fn len(&self) -> (r: usize)
        ensures
            r == self.players().len(),
    {
        self.players.len()
    }

    /// The name, team and handle of the `i`th connected player.
    pub fn player(&self, i: usize) -> (r: &(String, usize, P))
        requires
            i < self.players().len(),
        ensures
            *r == self.players()[i as int],
    {
        &self.players[i]
    }

    /// Where the players of team `team` stand among the connected players,
    /// in order.
    pub fn team_members(&self, team: usize) -> (r: Vec<usize>)
        ensures
            forall|k: int| 0 <= k < r@.len() ==> r@[k] < self.players().len()
                && self.players()[r@[k] as int].1 == team,
            forall|k: int, l: int| 0 <= k < l < r@.len() ==> r@[k] < r@[l],
            forall|i: int|
                0 <= i < self.players().len() && self.players()[i].1 == team ==> r@.contains(
                    i as usize,
                ),
    {
        let mut r: Vec<usize> = Vec::new();
        let mut i: usize = 0;
        while i < self.players.len()
            invariant
                i <= self.players@.len(),
                forall|k: int| 0 <= k < r@.len() ==> r@[k] < i && self.players@[r@[k] as int].1 == team,
                forall|k: int, l: int| 0 <= k < l < r@.len() ==> r@[k] < r@[l],
                forall|j: int| 0 <= j < i && self.players@[j].1 == team ==> r@.contains(j as usize),
            decreases self.players@.len() - i,
        {
            if self.players[i].1 == team {
                let ghost old_r = r@;
                r.push(i);
                assert forall|j: int| 0 <= j < i + 1 && self.players@[j].1 == team implies r@.contains(
                    j as usize,
                ) by {
                    if j < i {
                        let k = choose|k: int| 0 <= k < old_r.len() && old_r[k] == j as usize;
                        assert(r@[k] == j as usize);
                    } else {
                        assert(r@[old_r.len() as int] == j as usize);
                    }
                }
            }
            i = i + 1;
        }
        r
    }
}

/// Takes the queued messages, oldest first, and leaves the queue empty.
pub fn get_messages<P>(net: &mut Netcom<P>) -> (r: Vec<(String, usize, Vec<u8>)>)
    ensures
        r@ == old(net).messages(),
        final(net).messages() == Seq::<(String, usize, Vec<u8>)>::empty(),
        final(net).players() == old(net).players(),
{
    let mut taken: Vec<(String, usize, Vec<u8>)> = Vec::new();
    std::mem::swap(&mut taken, &mut net.messages);
    taken
}

} // verus!
