//! The per-connection protocol: parsing a line into a command, and deciding
//! for each command what the connection replies, broadcasts or switches to.

use vstd::prelude::*;
use vstd::string::*;
use crate::names::{Names, GetName, assigned, candidate};
use crate::text::{is_ascii_space, skip_space, skip_word, is_prefix, second_word, starts_with, second_word_of, str_eq, decimal, push_decimal};

verus! {

/// The text sent in reply to `/help`.
pub const HELP_TEXT: &'static str = "Commands: /help, /rooms, /join <room>, /name <name>, /quit; any other line is sent to your room";

/// The reply to `/join` without a room.
pub const JOIN_USAGE: &'static str = "Usage: /join <room>";

/// The reply to `/name` without a name.
pub const NAME_USAGE: &'static str = "Usage: /name <name>";

/// The room every connection starts in.
pub const MAIN_ROOM: &'static str = "main";

/// A command line that lacks its argument.
#[derive(PartialEq, Eq, Structural, Clone, Copy, Debug)]
pub enum CommandError {
    MissingRoom,
    MissingName,
}

/// What a line asks for.
#[derive(PartialEq, Eq, Clone, Debug)]
pub enum Command {
    Help,
    Rooms,
    Join(String),
    Name(String),
    Quit,
    Chat(String),
}

/// A command as plain values.
pub enum Request {
    Help,
    Rooms,
    Join(Seq<char>),
    Name(Seq<char>),
    Quit,
    Chat(Seq<char>),
}

impl View for Command {
    type V = Request;

    open spec fn view(&self) -> Request {
        match self {
            Command::Help => Request::Help,
            Command::Rooms => Request::Rooms,
            Command::Join(r) => Request::Join(r@),
            Command::Name(n) => Request::Name(n@),
            Command::Quit => Request::Quit,
            Command::Chat(t) => Request::Chat(t@),
        }
    }
}

/// How a line reads: the commands are recognised by their prefix, and an
/// argument is the line's second whitespace-separated word.
pub open spec fn parse(l: Seq<char>) -> Result<Request, CommandError> {
    if is_prefix("/help"@, l) {
        Ok(Request::Help)
    } else if is_prefix("/rooms"@, l) {
        Ok(Request::Rooms)
    } else if is_prefix("/join"@, l) {
        match second_word(l) {
            Some(w) => Ok(Request::Join(w)),
            None => Err(CommandError::MissingRoom),
        }
    } else if is_prefix("/name"@, l) {
        match second_word(l) {
            Some(w) => Ok(Request::Name(w)),
            None => Err(CommandError::MissingName),
        }
    } else if is_prefix("/quit"@, l) {
        Ok(Request::Quit)
    } else {
        Ok(Request::Chat(l))
    }
}

/// Reads a line as a command.
pub fn parse_command(line: &str) -> (r: Result<Command, CommandError>)
    ensures
        match r {
            Ok(c) => parse(line@) == Ok::<Request, CommandError>(c@),
            Err(e) => parse(line@) == Err::<Request, CommandError>(e),
        },
{
    if starts_with(line, "/help") {
        Ok(Command::Help)
    } else if starts_with(line, "/rooms") {
        Ok(Command::Rooms)
    } else if starts_with(line, "/join") {
        match second_word_of(line) {
            Some(w) => Ok(Command::Join(w)),
            None => Err(CommandError::MissingRoom),
        }
    } else if starts_with(line, "/name") {
        match second_word_of(line) {
            Some(w) => Ok(Command::Name(w)),
            None => Err(CommandError::MissingName),
        }
    } else if starts_with(line, "/quit") {
        Ok(Command::Quit)
    } else {
        Ok(Command::Chat(line.to_owned()))
    }
}

/// What the connection does in answer to a line, in order.
#[derive(PartialEq, Eq, Clone, Debug)]
pub enum Action {
    /// Send the text to this connection alone.
    Reply(String),
    /// Send the text to the room the connection is in at that point.
    Broadcast(String),
    /// Leave the current room's channel and subscribe to this room's.
    Switch(String),
    /// Reply with the room listing.
    ListRooms,
    /// End the connection.
    Quit,
}

/// An action as plain values.
pub enum Effect {
    Reply(Seq<char>),
    Broadcast(Seq<char>),
    Switch(Seq<char>),
    ListRooms,
    Quit,
}

impl View for Action {
    type V = Effect;

    open spec fn view(&self) -> Effect {
        match self {
            Action::Reply(t) => Effect::Reply(t@),
            Action::Broadcast(t) => Effect::Broadcast(t@),
            Action::Switch(r) => Effect::Switch(r@),
            Action::ListRooms => Effect::ListRooms,
            Action::Quit => Effect::Quit,
        }
    }
}

pub open spec fn effects(v: Seq<Action>) -> Seq<Effect> {
    v.map_values(|a: Action| a@)
}

/// The session state and name registry after a line, and what the
/// connection does: `(name, room, held names, effects)`.
pub open spec fn dispatch(name: Seq<char>, room: Seq<char>, held: Set<Seq<char>>, line: Seq<char>) -> (
    Seq<char>,
    Seq<char>,
    Set<Seq<char>>,
    Seq<Effect>,
) {
    match parse(line) {
        Err(CommandError::MissingRoom) => (name, room, held, seq![Effect::Reply(JOIN_USAGE@)]),
        Err(CommandError::MissingName) => (name, room, held, seq![Effect::Reply(NAME_USAGE@)]),
        Ok(Request::Help) => (name, room, held, seq![Effect::Reply(HELP_TEXT@)]),
        Ok(Request::Rooms) => (name, room, held, seq![Effect::ListRooms]),
        Ok(Request::Join(r)) => if r == room {
            (name, room, held, seq![Effect::Reply("You are already inside the room "@ + room)])
        } else {
            (name, r, held, seq![
                Effect::Broadcast(name + " left "@ + room),
                Effect::Switch(r),
                Effect::Broadcast(name + " joined "@ + r),
            ])
        },
        Ok(Request::Name(n)) => if held.contains(n) {
            (name, room, held, seq![Effect::Reply(n + " is already taken"@)])
        } else {
            (n, room, held.insert(n), seq![Effect::Broadcast(name + " is now "@ + n)])
        },
        Ok(Request::Quit) => (name, room, held, seq![Effect::Quit]),
        Ok(Request::Chat(t)) => (name, room, held, seq![Effect::Broadcast(name + ": "@ + t)]),
    }
}

/// `a`, `b` and `c` one after the other.
fn join3(a: &str, b: &str, c: &str) -> (r: String)
    ensures
        r@ == a@ + b@ + c@,
{
    let mut r = a.to_owned();
    r.append(b);
    r.append(c);
    r
}

/// A non-empty run of characters without ASCII whitespace.
pub open spec fn is_word(w: Seq<char>) -> bool {
    w.len() > 0 && forall|i: int| 0 <= i < w.len() ==> !is_ascii_space(#[trigger] w[i])
}

/// The line starts like one of the commands.
pub open spec fn is_command(l: Seq<char>) -> bool {
    is_prefix("/help"@, l) || is_prefix("/rooms"@, l) || is_prefix("/join"@, l)
        || is_prefix("/name"@, l) || is_prefix("/quit"@, l)
}

proof fn lemma_skip_word_to_end(s: Seq<char>, i: int)
    requires
        0 <= i <= s.len(),
        forall|k: int| i <= k < s.len() ==> !is_ascii_space(#[trigger] s[k]),
    ensures
        skip_word(s, i) == s.len(),
    decreases s.len() - i,
{
    if i < s.len() {
        lemma_skip_word_to_end(s, i + 1);
    }
}

/// The argument of a command word followed by one space and a word is that word.
proof fn lemma_second_word(cmd: Seq<char>, w: Seq<char>)
    requires
        cmd.len() == 5,
        cmd[0] == '/',
        is_word(cmd),
        is_word(w),
    ensures
        second_word(cmd + " "@ + w) == Some(w),
{
    reveal_strlit(" ");
    let l = cmd + " "@ + w;
    assert(l[5] == ' ');
    assert(l[6] == w[0]);
    assert(skip_space(l, 0) == 0);
    assert(skip_word(l, 5) == 5);
    assert(skip_word(l, 4) == 5);
    assert(skip_word(l, 3) == 5);
    assert(skip_word(l, 2) == 5);
    assert(skip_word(l, 1) == 5);
    assert(skip_word(l, 0) == 5);
    assert(skip_space(l, 6) == 6);
    assert(skip_space(l, 5) == 6);
    assert forall|k: int| 6 <= k < l.len() implies !is_ascii_space(#[trigger] l[k]) by {
        assert(l[k] == w[k - 6]);
    };
    lemma_skip_word_to_end(l, 6);
    assert(l.subrange(6, l.len() as int) =~= w);
}

/// `/name new` takes the name `new` exactly when no connection holds it.
/// Then the registry holds `new` and the connection's chat lines are sent
/// under `new`; otherwise nothing changes, the connection alone is told
/// that the name is taken, and its chat lines are still sent under its old
/// name.
pub proof fn lemma_rename(
    name: Seq<char>,
    room: Seq<char>,
    held: Set<Seq<char>>,
    new: Seq<char>,
    text: Seq<char>,
)
    requires
        is_word(new),
        !is_command(text),
    ensures
        ({
            let d = dispatch(name, room, held, "/name "@ + new);
            &&& !held.contains(new) ==> {
                &&& d.0 == new
                &&& d.1 == room
                &&& d.2 == held.insert(new)
                &&& d.3 == seq![Effect::Broadcast(name + " is now "@ + new)]
                &&& dispatch(d.0, d.1, d.2, text).3 == seq![Effect::Broadcast(new + ": "@ + text)]
            }
            &&& held.contains(new) ==> {
                &&& d.0 == name
                &&& d.1 == room
                &&& d.2 == held
                &&& d.3 == seq![Effect::Reply(new + " is already taken"@)]
                &&& dispatch(d.0, d.1, d.2, text).3 == seq![Effect::Broadcast(name + ": "@ + text)]
            }
        }),
{
    reveal_strlit("/name ");
    reveal_strlit("/name");
    reveal_strlit(" ");
    reveal_strlit("/help");
    reveal_strlit("/rooms");
    reveal_strlit("/join");
    let l = "/name "@ + new;
    assert("/name "@ =~= "/name"@ + " "@);
    assert(l =~= "/name"@ + " "@ + new);
    assert(is_word("/name"@));
    lemma_second_word("/name"@, new);
    assert(l.subrange(0, 5) =~= "/name"@);
    assert(l[1] == 'n');
    assert(!is_prefix("/help"@, l));
    assert(!is_prefix("/rooms"@, l));
    assert(!is_prefix("/join"@, l));
    assert(parse(l) == Ok::<Request, CommandError>(Request::Name(new)));
    assert(parse(text) == Ok::<Request, CommandError>(Request::Chat(text)));
}

/// What the connection's room channel handed over.
#[derive(PartialEq, Eq, Clone, Debug)]
pub enum BusEvent {
    /// A message for the room.
    Message(String),
    /// The connection fell behind and this many messages were dropped.
    Lagged(u64),
    /// The channel has no sender left.
    Closed,
}

/// What the connection does with an event of its room channel: a message
/// goes to the client, a lag is skipped over, and a closed channel ends the
/// connection.
pub fn on_bus_event(event: BusEvent) -> (r: Vec<Action>)
    ensures
        match event {
            BusEvent::Message(m) => effects(r@) == seq![Effect::Reply(m@)],
            BusEvent::Lagged(_) => r@.len() == 0,
            BusEvent::Closed => effects(r@) == seq![Effect::Quit],
        },
{
    let mut actions: Vec<Action> = Vec::new();
    match event {
        BusEvent::Message(m) => {
            actions.push(Action::Reply(m));
            assert(effects(actions@) =~= seq![Effect::Reply(m@)]);
        },
        BusEvent::Lagged(_) => {},
        BusEvent::Closed => {
            actions.push(Action::Quit);
            assert(effects(actions@) =~= seq![Effect::Quit]);
        },
    }
    actions
}

/// One listing entry: `name (count)`.
pub open spec fn entry_text(e: (String, usize)) -> Seq<char> {
    e.0@ + " ("@ + decimal(e.1 as nat) + ")"@
}

/// The entries of a listing, in order, separated by `, `.
pub open spec fn entries_text(s: Seq<(String, usize)>) -> Seq<char>
    decreases s.len(),
{
    if s.len() == 0 {
        Seq::empty()
    } else if s.len() == 1 {
        entry_text(s[0])
    } else {
        entries_text(s.drop_last()) + ", "@ + entry_text(s.last())
    }
}

/// The reply to `/rooms` for a listing, in the listing's order.
pub fn format_room_list(list: &Vec<(String, usize)>) -> (r: String)
    ensures
        r@ == "Rooms -> "@ + entries_text(list@),
{
    let mut body = String::new();
    let mut i: usize = 0;
    while i < list.len()
        invariant
            i <= list@.len(),
            body@ == entries_text(list@.subrange(0, i as int)),
        decreases list@.len() - i,
    {
        let ghost before = body@;
        if i > 0 {
            body.append(", ");
        }
        body.append(list[i].0.as_str());
        body.append(" (");
        push_decimal(&mut body, list[i].1 as u64);
        body.append(")");
        proof {
            let t = list@.subrange(0, i + 1);
            assert(t.drop_last() =~= list@.subrange(0, i as int));
            assert(t.last() == list@[i as int]);
            if i == 0 {
                assert(before =~= Seq::<char>::empty());
            }
        }
        assert(body@ =~= entries_text(list@.subrange(0, i + 1)));
        i = i + 1;
    }
    assert(list@.subrange(0, list@.len() as int) =~= list@);
    let r = join3("Rooms -> ", body.as_str(), "");
    proof {
        reveal_strlit("");
        assert(r@ =~= "Rooms -> "@ + body@);
    }
    r
}

/// One connection's state: its name and the room it is in.
#[derive(Clone, Debug)]
pub struct Session {
    pub name: String,
    pub room: String,
    /// Every name this connection has taken, freed when it closes.
    pub taken: Vec<String>,
}

impl Session {
    pub open spec fn taken_seq(&self) -> Seq<Seq<char>> {
        self.taken@.map_values(|s: String| s@)
    }

    pub open spec fn taken_names(&self) -> Set<Seq<char>> {
        self.taken_seq().to_set()
    }

    /// Opens a connection: draws a free name, and enters the main room.
    pub fn start(names: &mut Names, counter: &mut GetName) -> (r: (Session, Vec<Action>))
        requires
            old(names).wf(),
            old(counter).digit + old(names)@.len() < u32::MAX,
        ensures
            final(names).wf(),
            assigned(old(names)@, r.0.name@, final(names)@),
            r.0.room@ == MAIN_ROOM@,
            effects(r.1@) == seq![
                Effect::Reply("You are "@ + r.0.name@),
                Effect::Switch(MAIN_ROOM@),
                Effect::Broadcast(r.0.name@ + " joined "@ + MAIN_ROOM@),
            ],
            r.0.name@ == candidate(old(counter).name@, final(counter).digit as nat),
            r.0.taken_seq() == seq![r.0.name@],
            final(counter).name == old(counter).name,
            final(counter).digit > old(counter).digit,
            final(counter).digit <= old(counter).digit + old(names)@.len() + 1,
            forall|k: nat| old(counter).digit < k < final(counter).digit
                ==> old(names)@.contains(#[trigger] candidate(old(counter).name@, k)),
    {
        let name = names.get_unique(counter);
        let mut actions: Vec<Action> = Vec::new();
        actions.push(Action::Reply(join3("You are ", name.as_str(), "")));
        actions.push(Action::Switch(MAIN_ROOM.to_owned()));
        actions.push(Action::Broadcast(join3(name.as_str(), " joined ", MAIN_ROOM)));
        proof {
            reveal_strlit("");
        }
        assert(effects(actions@) =~= seq![
            Effect::Reply("You are "@ + name@),
            Effect::Switch(MAIN_ROOM@),
            Effect::Broadcast(name@ + " joined "@ + MAIN_ROOM@),
        ]);
        let mut taken: Vec<String> = Vec::new();
        taken.push(name.clone());
        let session = Session { name, room: MAIN_ROOM.to_owned(), taken };
        assert(session.taken_seq() =~= seq![session.name@]);
        (session, actions)
    }

    /// Answers one line from the client.
    pub fn handle_line(&mut self, line: &str, names: &mut Names) -> (r: Vec<Action>)
        requires
            old(names).wf(),
        ensures
            final(names).wf(),
            dispatch(old(self).name@, old(self).room@, old(names)@, line@)
                == (final(self).name@, final(self).room@, final(names)@, effects(r@)),
            final(self).taken_seq() == (if final(names)@ == old(names)@ {
                old(self).taken_seq()
            } else {
                old(self).taken_seq().push(final(self).name@)
            }),
    {
        let mut actions: Vec<Action> = Vec::new();
        match parse_command(line) {
            Err(CommandError::MissingRoom) => {
                actions.push(Action::Reply(JOIN_USAGE.to_owned()));
            },
            Err(CommandError::MissingName) => {
                actions.push(Action::Reply(NAME_USAGE.to_owned()));
            },
            Ok(Command::Help) => {
                actions.push(Action::Reply(HELP_TEXT.to_owned()));
            },
            Ok(Command::Rooms) => {
                actions.push(Action::ListRooms);
            },
            Ok(Command::Join(room)) => {
                if str_eq(room.as_str(), self.room.as_str()) {
                    actions.push(Action::Reply(join3("You are already inside the room ", self.room.as_str(), "")));
                } else {
                    actions.push(Action::Broadcast(join3(self.name.as_str(), " left ", self.room.as_str())));
                    actions.push(Action::Switch(room.clone()));
                    actions.push(Action::Broadcast(join3(self.name.as_str(), " joined ", room.as_str())));
                    self.room = room;
                }
            },
            Ok(Command::Name(new_name)) => {
                let old_name = self.name.clone();
                if names.insert(new_name.clone()) {
                    actions.push(Action::Broadcast(join3(old_name.as_str(), " is now ", new_name.as_str())));
                    assert(names@.contains(new_name@) && !old(names)@.contains(new_name@));
                    self.taken.push(new_name.clone());
                    assert(self.taken_seq() =~= old(self).taken_seq().push(new_name@));
                    self.name = new_name;
                } else {
                    actions.push(Action::Reply(join3(new_name.as_str(), " is already taken", "")));
                }
            },
            Ok(Command::Quit) => {
                actions.push(Action::Quit);
            },
            Ok(Command::Chat(text)) => {
                actions.push(Action::Broadcast(join3(self.name.as_str(), ": ", text.as_str())));
            },
        }
        proof {
            reveal_strlit("");
        }
        let ghost d = dispatch(old(self).name@, old(self).room@, old(names)@, line@);
        assert(effects(actions@) =~= d.3);
        assert(final(names)@ =~= d.2);
        actions
    }

    /// Closes the connection: tells the room, and frees the current name and
    /// every name the connection took before it.
    pub fn finish(&self, names: &mut Names) -> (r: Vec<Action>)
        requires
            old(names).wf(),
        ensures
            final(names).wf(),
            final(names)@ == old(names)@.difference(self.taken_names()).remove(self.name@),
            effects(r@) == seq![Effect::Broadcast(self.name@ + " left "@ + self.room@)],
    {
        let mut i: usize = 0;
        assert(self.taken_seq().subrange(0, 0).to_set() =~= Set::<Seq<char>>::empty());
        assert(old(names)@.difference(Set::<Seq<char>>::empty()) =~= old(names)@);
        while i < self.taken.len()
            invariant
                names.wf(),
                i <= self.taken@.len(),
                names@ == old(names)@.difference(self.taken_seq().subrange(0, i as int).to_set()),
            decreases self.taken@.len() - i,
        {
            names.remove(self.taken[i].as_str());
            proof {
                let before = self.taken_seq().subrange(0, i as int);
                let x = self.taken_seq()[i as int];
                assert(self.taken_seq().subrange(0, i + 1) =~= before.push(x));
                before.lemma_push_to_set_commute(x);
                assert(names@ =~= old(names)@.difference(before.push(x).to_set()));
            }
            i = i + 1;
        }
        assert(self.taken_seq().subrange(0, self.taken@.len() as int) =~= self.taken_seq());
        names.remove(self.name.as_str());
        let mut actions: Vec<Action> = Vec::new();
        actions.push(Action::Broadcast(join3(self.name.as_str(), " left ", self.room.as_str())));
        assert(effects(actions@) =~= seq![Effect::Broadcast(self.name@ + " left "@ + self.room@)]);
        actions
    }
}

} // verus!
