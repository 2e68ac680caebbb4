//! The chat room: who is in it, which names it accepts, and the lines it
//! sends.
use vstd::prelude::*;
use vstd::string::{StrSliceExecFns, StringExecFns};

verus! {

/// The name of a user.
pub type Username = String;

/// A line of the chat.
pub type Message = String;

/// A line for everyone in the room but its author.
#[derive(Clone, Debug, Default)]
pub struct BroadcastMessage {
    pub from: Username,
    pub message: Message,
}

impl BroadcastMessage {
    /// The line `message`, written by `from`.
    pub fn new(from: Username, message: Message) -> (m: Self)
        ensures
            m.from == from,
            m.message == message,
    {
        BroadcastMessage { from, message }
    }

    /// Whether the line goes to the user `username`: to everyone but its
    /// author.
    pub fn is_for(&self, username: &String) -> (b: bool)
        ensures
            b == (self.from@ != username@),
    {
        !(self.from == *username)
    }
}

/// Whether Unicode counts `c` as alphabetic.
pub uninterp spec fn is_alphabetic(c: char) -> bool;

/// `char::is_alphabetic`.
#[verifier::external_body]
fn char_is_alphabetic(c: char) -> (b: bool)
    ensures
        b == is_alphabetic(c),
{
    c.is_alphabetic()
}

/// For each character of the name, whether it is alphabetic.
pub open spec fn alphabetic_flags(name: Seq<char>) -> Seq<bool> {
    Seq::new(name.len(), |i: int| is_alphabetic(name[i]))
}

/// Whether there is at least one flag and all of them are set.
pub open spec fn all_set(flags: Seq<bool>) -> bool {
    flags.len() > 0 && forall|i: int| 0 <= i < flags.len() ==> #[trigger] flags[i]
}

/// A name is accepted if it has at least one character and all of them are
/// alphabetic.
pub open spec fn valid_name(name: Seq<char>) -> bool {
    all_set(alphabetic_flags(name))
}

/// Whether a name is accepted, given for each of its characters whether it
/// is alphabetic.
pub fn accepts(flags: &Vec<bool>) -> (b: bool)
    ensures
        b == all_set(flags@),
{
    if flags.len() == 0 {
        return false;
    }
    let mut i: usize = 0;
    while i < flags.len()
        invariant
            i <= flags.len(),
            forall|j: int| 0 <= j < i ==> #[trigger] flags@[j],
        decreases flags.len() - i,
    {
        if !flags[i] {
            return false;
        }
        i = i + 1;
    }
    true
}

/// For each character of the name, whether it is alphabetic.
fn flags_of(name: &str) -> (flags: Vec<bool>)
    ensures
        flags@ == alphabetic_flags(name@),
{
    let n: usize = name.unicode_len();
    let mut flags: Vec<bool> = Vec::new();
    let mut i: usize = 0;
    while i < n
        invariant
            i <= n,
            n == name@.len(),
            flags@.len() == i,
            forall|j: int| 0 <= j < i ==> flags@[j] == is_alphabetic(name@[j]),
        decreases n - i,
    {
        flags.push(char_is_alphabetic(name.get_char(i)));
        i = i + 1;
    }
    assert(flags@ =~= alphabetic_flags(name@));
    flags
}

/// Whether `name` is accepted as a user's name.
pub fn is_valid_name(name: &str) -> (b: bool)
    ensures
        b == valid_name(name@),
{
    accepts(&flags_of(name))
}

/// The names in `users` other than `name`, in order.
pub open spec fn others(users: Seq<Seq<char>>, name: Seq<char>) -> Seq<Seq<char>>
    decreases users.len(),
{
    if users.len() == 0 {
        Seq::empty()
    } else {
        let before = others(users.drop_last(), name);
        if users.last() != name {
            before.push(users.last())
        } else {
            before
        }
    }
}

/// The names, each as a sequence of characters.
pub open spec fn names(users: Seq<String>) -> Seq<Seq<char>> {
    users.map_values(|u: String| u@)
}

/// The names joined by commas.
pub open spec fn joined(users: Seq<Seq<char>>) -> Seq<char>
    decreases users.len(),
{
    if users.len() == 0 {
        Seq::empty()
    } else if users.len() == 1 {
        users[0]
    } else {
        joined(users.drop_last()) + seq![','] + users.last()
    }
}

/// The users in the room, in the order they came in.
pub struct Db {
    users: Vec<String>,
}

impl View for Db {
    type V = Seq<Seq<char>>;

    closed spec fn view(&self) -> Seq<Seq<char>> {
        names(self.users@)
    }
}

impl Db {
    /// An empty room.
    pub fn new() -> (db: Db)
        ensures
            db@ == Seq::<Seq<char>>::empty(),
    {
        let db = Db { users: Vec::new() };
        assert(db@ =~= Seq::empty());
        db
    }

    /// Lets `username` in if the name is accepted, and tells whether it was.
    pub fn insert_user(&mut self, username: String) -> (accepted: bool)
        ensures
            accepted == valid_name(username@),
            accepted ==> final(self)@ == old(self)@.push(username@),
            !accepted ==> final(self)@ == old(self)@,
    {
        if is_valid_name(username.as_str()) {
            let ghost name = username@;
            self.users.push(username);
            assert(self@ =~= old(self)@.push(name));
            true
        } else {
            false
        }
    }

    /// Everyone in the room but `username`, in the order they came in.
    pub fn get_room_members(&self, username: &String) -> (members: Vec<String>)
        ensures
            names(members@) == others(self@, username@),
    {
        let ghost all = self@;
        let mut members: Vec<String> = Vec::new();
        let mut i: usize = 0;
        assert(names(members@) =~= Seq::empty());
        while i < self.users.len()
            invariant
                i <= self.users.len(),
                all == self@,
                names(members@) == others(all.take(i as int), username@),
            decreases self.users.len() - i,
        {
            assert(all.take(i + 1).drop_last() =~= all.take(i as int));
            assert(all.take(i + 1).last() == self.users[i as int]@);
            if !(self.users[i] == *username) {
                let u = self.users[i].clone();
                members.push(u);
                assert(names(members@) =~= others(all.take(i + 1), username@));
            }
            i = i + 1;
        }
        assert(all.take(i as int) =~= all);
        members
    }

    /// Takes `username` out of the room, however often the name is there.
    pub fn remove(&mut self, username: &String)
        ensures
            final(self)@ == others(old(self)@, username@),
    {
        self.users = self.get_room_members(username);
    }
}

/// The greeting that asks for a name.
pub fn welcome_message() -> (line: String)
    ensures
        line@ == "Welcome to budgetchat! What shall I call you?"@,
{
    String::from_str("Welcome to budgetchat! What shall I call you?")
}

/// The line that tells the room that `username` came in.
pub fn joined_message(username: &String) -> (line: String)
    ensures
        line@ == "* "@ + username@ + " has entered the room"@,
{
    let mut line = String::from_str("* ");
    line.append(username.as_str());
    line.append(" has entered the room");
    line
}

/// The line that tells the room that `username` left.
pub fn left_message(username: &String) -> (line: String)
    ensures
        line@ == "* "@ + username@ + " has left the room"@,
{
    let mut line = String::from_str("* ");
    line.append(username.as_str());
    line.append(" has left the room");
    line
}

/// What `username` said, as the room sees it.
pub fn chat_message(username: &String, text: &String) -> (line: String)
    ensures
        line@ == "["@ + username@ + "] "@ + text@,
{
    let mut line = String::from_str("[");
    line.append(username.as_str());
    line.append("] ");
    line.append(text.as_str());
    line
}

/// The line that tells a newcomer who is in the room.
pub fn room_contains_message(members: &Vec<String>) -> (line: String)
    ensures
        line@ == "* The room contains "@ + joined(names(members@)),
{
    let ghost all = names(members@);
    let mut list = String::new();
    let mut i: usize = 0;
    while i < members.len()
        invariant
            i <= members.len(),
            all == names(members@),
            list@ == joined(all.take(i as int)),
        decreases members.len() - i,
    {
        assert(all.take(i + 1).drop_last() =~= all.take(i as int));
        assert(all.take(i + 1).last() == members[i as int]@);
        if i > 0 {
            list.append(",");
            proof {
                reveal_strlit(",");
            }
            assert(","@ =~= seq![',']);
        }
        list.append(members[i].as_str());
        assert(list@ =~= joined(all.take(i + 1)));
        i = i + 1;
    }
    assert(all.take(i as int) =~= all);
    let mut line = String::from_str("* The room contains ");
    line.append(list.as_str());
    line
}

} // verus!
