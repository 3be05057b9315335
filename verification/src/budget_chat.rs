//! The chat room: user-name checks, the texts that the room sends, and the
//! room's membership as users join, talk and leave.
use vstd::prelude::*;
use vstd::string::{StrSliceExecFns, StringExecFns};
use vstd::utf8::{encode_utf8, valid_utf8, decode_utf8};
use crate::tcp::string_from_utf8;

verus! {

/// Why a requested user name was refused.
pub enum UserNameError {
    NameTooShort,
    NameTooLong,
    InvalidName,
}

// What `char::is_uppercase` answers for `c`: whether `c` has the Unicode
// Uppercase property.
pub uninterp spec fn char_is_uppercase(c: char) -> bool;

// What `char::is_lowercase` answers for `c`: whether `c` has the Unicode
// Lowercase property.
pub uninterp spec fn char_is_lowercase(c: char) -> bool;

/// Calls `char::is_uppercase`. The contract claims only that the answer is
/// a function of `c` alone ([`char_is_uppercase`]); which characters the
/// Unicode tables count as uppercase is left unsaid.
#[verifier::external_body]
fn is_uppercase(c: char) -> (res: bool)
    ensures
        res == char_is_uppercase(c),
{
    c.is_uppercase()
}

/// Calls `char::is_lowercase`. The contract claims only that the answer is
/// a function of `c` alone ([`char_is_lowercase`]); which characters the
/// Unicode tables count as lowercase is left unsaid.
#[verifier::external_body]
fn is_lowercase(c: char) -> (res: bool)
    ensures
        res == char_is_lowercase(c),
{
    c.is_lowercase()
}

/// A character allowed in a user name: an uppercase letter, a lowercase
/// letter or a digit `0` to `9`. Among ASCII characters these are exactly
/// `A` to `Z`, `a` to `z` and `0` to `9`; beyond ASCII, the letters that
/// Unicode counts as uppercase or lowercase.
pub open spec fn is_name_char(c: char) -> bool {
    if (c as u32) < 0x80 {
        ||| 'a' <= c <= 'z'
        ||| 'A' <= c <= 'Z'
        ||| '0' <= c <= '9'
    } else {
        char_is_uppercase(c) || char_is_lowercase(c)
    }
}

/// A character with the Unicode White_Space property: U+0009 to U+000D,
/// U+0020, U+0085, U+00A0, U+1680, U+2000 to U+200A, U+2028, U+2029,
/// U+202F, U+205F and U+3000.
pub open spec fn is_white_space(c: char) -> bool {
    let u = c as u32;
    ||| 0x09 <= u <= 0x0d
    ||| u == 0x20
    ||| u == 0x85
    ||| u == 0xa0
    ||| u == 0x1680
    ||| 0x2000 <= u <= 0x200a
    ||| u == 0x2028
    ||| u == 0x2029
    ||| u == 0x202f
    ||| u == 0x205f
    ||| u == 0x3000
}

/// Whether `c` may stand in a user name.
fn is_name_character(c: char) -> (res: bool)
    ensures
        res == is_name_char(c),
{
    if (c as u32) < 0x80 {
        (c >= 'a' && c <= 'z') || (c >= 'A' && c <= 'Z') || (c >= '0' && c <= '9')
    } else {
        is_uppercase(c) || is_lowercase(c)
    }
}

/// Whether `c` is whitespace.
fn is_whitespace(c: char) -> (res: bool)
    ensures
        res == is_white_space(c),
{
    let u = c as u32;
    (u >= 0x09 && u <= 0x0d) || u == 0x20 || u == 0x85 || u == 0xa0 || u == 0x1680 || (u >= 0x2000
        && u <= 0x200a) || u == 0x2028 || u == 0x2029 || u == 0x202f || u == 0x205f || u == 0x3000
}

/// Every character of `s` may stand in a user name.
pub open spec fn all_name_chars(s: Seq<char>) -> bool {
    forall|i: int| 0 <= i < s.len() ==> is_name_char(#[trigger] s[i])
}

/// The verdict on a requested user name: its length in UTF-8 bytes must lie
/// in `1..=16`, checked in that order, and then every character must be an
/// uppercase or lowercase letter or a digit (see [`is_name_char`]).
pub open spec fn user_name_verdict(name: Seq<char>) -> Result<(), UserNameError> {
    if encode_utf8(name).len() < 1 {
        Err(UserNameError::NameTooShort)
    } else if encode_utf8(name).len() > 16 {
        Err(UserNameError::NameTooLong)
    } else if !all_name_chars(name) {
        Err(UserNameError::InvalidName)
    } else {
        Ok(())
    }
}

impl UserNameError {
    /// The text sent to a client whose requested name was refused.
    pub fn geenrate_error_message(err: UserNameError) -> (res: &'static str)
        ensures
            match err {
                UserNameError::NameTooShort => res@ == "Name too short (Minimum 1 character)"@,
                UserNameError::NameTooLong => res@ == "Name too long (Maximum 16 characters)"@,
                UserNameError::InvalidName => res@
                    == "Invalid name. Please ensure name consists of only alphabets and digits"@,
            },
    {
        match err {
            UserNameError::NameTooShort => "Name too short (Minimum 1 character)",
            UserNameError::NameTooLong => "Name too long (Maximum 16 characters)",
            _ => "Invalid name. Please ensure name consists of only alphabets and digits",
        }
    }
}

/// Checks a requested user name (see [`user_name_verdict`]).
pub fn validate_user_name(user_name: &str) -> (res: Result<(), UserNameError>)
    ensures
        res == user_name_verdict(user_name@),
{
    let user_name_length = user_name.as_bytes().len();
    if user_name_length < 1 {
        return Err(UserNameError::NameTooShort);
    } else if user_name_length > 16 {
        return Err(UserNameError::NameTooLong);
    }
    let n = user_name.unicode_len();
    let mut i: usize = 0;
    while i < n
        invariant
            n == user_name@.len(),
            1 <= encode_utf8(user_name@).len() <= 16,
            i <= n,
            forall|j: int| 0 <= j < i ==> is_name_char(#[trigger] user_name@[j]),
        decreases n - i,
    {
        let c = user_name.get_char(i);
        if !is_name_character(c) {
            assert(!is_name_char(user_name@[i as int]));
            return Err(UserNameError::InvalidName);
        }
        i = i + 1;
    }
    Ok(())
}

/// Number of whitespace characters at the start of `s`.
pub open spec fn leading_whitespace(s: Seq<char>) -> nat
    decreases s.len(),
{
    if s.len() > 0 && is_white_space(s[0]) {
        1 + leading_whitespace(s.drop_first())
    } else {
        0
    }
}

/// Length of `s` without the whitespace characters at its end.
pub open spec fn without_trailing_whitespace(s: Seq<char>) -> nat
    decreases s.len(),
{
    if s.len() > 0 && is_white_space(s.last()) {
        without_trailing_whitespace(s.drop_last())
    } else {
        s.len()
    }
}

/// `s` with leading and trailing whitespace removed.
pub open spec fn trim_spec(s: Seq<char>) -> Seq<char> {
    if leading_whitespace(s) >= without_trailing_whitespace(s) {
        Seq::empty()
    } else {
        s.subrange(leading_whitespace(s) as int, without_trailing_whitespace(s) as int)
    }
}

proof fn lemma_leading_whitespace_step(s: Seq<char>, i: int)
    requires
        0 <= i < s.len(),
    ensures
        is_white_space(s[i]) ==> leading_whitespace(s.skip(i)) == 1 + leading_whitespace(s.skip(i + 1)),
        !is_white_space(s[i]) ==> leading_whitespace(s.skip(i)) == 0,
{
    assert(s.skip(i)[0] == s[i]);
    assert(s.skip(i).drop_first() == s.skip(i + 1));
}

proof fn lemma_without_trailing_bound(s: Seq<char>)
    ensures
        without_trailing_whitespace(s) <= s.len(),
    decreases s.len(),
{
    if s.len() > 0 {
        lemma_without_trailing_bound(s.drop_last());
    }
}

/// Removes leading and trailing whitespace from `s`.
pub fn trim(s: &str) -> (res: String)
    ensures
        res@ == trim_spec(s@),
{
    let n = s.unicode_len();
    let mut i: usize = 0;
    assert(s@.skip(0) == s@);
    while i < n
        invariant
            n == s@.len(),
            i <= n,
            leading_whitespace(s@) == i + leading_whitespace(s@.skip(i as int)),
        ensures
            i <= n,
            leading_whitespace(s@) == i + leading_whitespace(s@.skip(i as int)),
            i == n || !is_white_space(s@[i as int]),
        decreases n - i,
    {
        let c = s.get_char(i);
        proof {
            lemma_leading_whitespace_step(s@, i as int);
        }
        if !is_whitespace(c) {
            break;
        }
        i = i + 1;
    }
    if i == n {
        assert(s@.skip(n as int).len() == 0);
        proof {
            lemma_without_trailing_bound(s@);
        }
        return String::new();
    }
    proof {
        lemma_leading_whitespace_step(s@, i as int);
    }
    let mut j: usize = n;
    assert(s@.take(n as int) == s@);
    while j > i + 1
        invariant
            n == s@.len(),
            i < j <= n,
            !is_white_space(s@[i as int]),
            without_trailing_whitespace(s@) == without_trailing_whitespace(s@.take(j as int)),
        ensures
            i < j <= n,
            without_trailing_whitespace(s@) == without_trailing_whitespace(s@.take(j as int)),
            j == i + 1 || !is_white_space(s@[j - 1]),
        decreases j,
    {
        let c = s.get_char(j - 1);
        assert(s@.take(j as int).last() == s@[j - 1]);
        assert(s@.take(j as int).drop_last() == s@.take(j - 1));
        if !is_whitespace(c) {
            break;
        }
        j = j - 1;
    }
    assert(s@.take(j as int).last() == s@[j - 1]);
    assert(s@.take(j as int).drop_last() == s@.take(j - 1));
    if j == i + 1 {
        assert(s@.take(j as int).last() == s@[i as int]);
    }
    s.substring_char(i, j).to_owned()
}


/// The greeting sent to a client as soon as it connects.
pub fn welcome_message() -> (res: &'static str)
    ensures
        res@ == "Welcome to budgetchat! What shall I call you?\n"@,
{
    "Welcome to budgetchat! What shall I call you?\n"
}

/// The longest line, in bytes with its newline, that is relayed without a
/// notice to its sender.
pub const MAX_MESSAGE_LEN: usize = 1000;

/// The notice sent back to a client whose line is longer than
/// [`MAX_MESSAGE_LEN`] bytes; the line is relayed all the same.
pub fn line_notice(line: &[u8]) -> (res: Option<&'static str>)
    ensures
        line@.len() > MAX_MESSAGE_LEN ==> (res matches Some(t) && t@
            == "Message too long (Maximum 1000 characters)"@),
        line@.len() <= MAX_MESSAGE_LEN ==> res is None,
{
    if line.len() > MAX_MESSAGE_LEN {
        Some("Message too long (Maximum 1000 characters)")
    } else {
        None
    }
}

/// Reads the name that a client asked for: its first line, decoded and
/// trimmed, then checked by [`validate_user_name`].
pub fn accept_name(line: Vec<u8>) -> (res: Result<String, UserNameError>)
    requires
        valid_utf8(line@),
    ensures
        match res {
            Ok(name) => name@ == trim_spec(decode_utf8(line@)) && user_name_verdict(name@) is Ok,
            Err(e) => user_name_verdict(trim_spec(decode_utf8(line@))) == Err::<(), UserNameError>(e),
        },
{
    let text = match string_from_utf8(line) {
        Ok(t) => t,
        Err(_) => {
            assert(false);
            String::new()
        },
    };
    let name = trim(text.as_str());
    match validate_user_name(name.as_str()) {
        Ok(()) => Ok(name),
        Err(e) => Err(e),
    }
}

/// The names in `names`, separated by a comma and a space.
pub open spec fn join_names(names: Seq<Seq<char>>) -> Seq<char>
    decreases names.len(),
{
    if names.len() == 0 {
        Seq::empty()
    } else if names.len() == 1 {
        names[0]
    } else {
        join_names(names.drop_last()) + ", "@ + names.last()
    }
}

/// Sent to everyone already in the room when `name` joins.
pub open spec fn joined_text(name: Seq<char>) -> Seq<char> {
    "* "@ + name + " has entered the room\n"@
}

/// Sent to a newcomer: who was in the room when it joined.
pub open spec fn listing_text(names: Seq<Seq<char>>) -> Seq<char> {
    "* The room contains: "@ + join_names(names) + "\n"@
}

/// Relayed to everyone else when `name` sends the line `line`.
pub open spec fn chat_text(name: Seq<char>, line: Seq<char>) -> Seq<char> {
    "["@ + name + "] "@ + trim_spec(line) + "\n"@
}

/// Sent to everyone remaining when `name` leaves.
pub open spec fn left_text(name: Seq<char>) -> Seq<char> {
    "* "@ + name + " has left the room\n"@
}

/// A text to be written to the connection of the member named `recipient`.
pub struct Outgoing {
    pub recipient: String,
    pub text: String,
}

/// `out` sends `text` to each of `to`, in that order.
pub open spec fn delivers(out: Seq<Outgoing>, to: Seq<Seq<char>>, text: Seq<char>) -> bool {
    &&& out.len() == to.len()
    &&& forall|i: int| 0 <= i < out.len() ==> (#[trigger] out[i]).recipient@ == to[i] && out[i].text@ == text
}

/// `s` without the entries equal to `name`, in order.
pub open spec fn without(s: Seq<Seq<char>>, name: Seq<char>) -> Seq<Seq<char>>
    decreases s.len(),
{
    if s.len() == 0 {
        Seq::empty()
    } else if s.last() == name {
        without(s.drop_last(), name)
    } else {
        without(s.drop_last(), name).push(s.last())
    }
}

/// What [`without`] keeps: exactly the entries of `s` other than `name`;
/// and it keeps a sequence free of duplicates.
pub proof fn lemma_without(s: Seq<Seq<char>>, name: Seq<char>)
    ensures
        forall|x: Seq<char>| #[trigger] without(s, name).contains(x) <==> (s.contains(x) && x != name),
        s.no_duplicates() ==> without(s, name).no_duplicates(),
    decreases s.len(),
{
    if s.len() > 0 {
        let rest = without(s.drop_last(), name);
        lemma_without(s.drop_last(), name);
        assert forall|x: Seq<char>| #[trigger] s.contains(x) <==> (s.drop_last().contains(x) || x == s.last()) by {
            if s.contains(x) {
                let k = choose|k: int| 0 <= k < s.len() && s[k] == x;
                if k < s.len() - 1 {
                    assert(s.drop_last()[k] == x);
                }
            }
            if s.drop_last().contains(x) {
                let k = choose|k: int| 0 <= k < s.drop_last().len() && s.drop_last()[k] == x;
                assert(s[k] == x);
            }
            if x == s.last() {
                assert(s[s.len() - 1] == x);
            }
        }
        if s.last() != name {
            assert forall|x: Seq<char>| #[trigger] rest.push(s.last()).contains(x) <==> (rest.contains(x) || x == s.last()) by {
                if rest.push(s.last()).contains(x) {
                    let k = choose|k: int| 0 <= k < rest.push(s.last()).len() && rest.push(s.last())[k] == x;
                    if k < rest.len() {
                        assert(rest[k] == x);
                    }
                }
                if rest.contains(x) {
                    let k = choose|k: int| 0 <= k < rest.len() && rest[k] == x;
                    assert(rest.push(s.last())[k] == x);
                }
                if x == s.last() {
                    assert(rest.push(s.last())[rest.len() as int] == x);
                }
            }
            if s.no_duplicates() {
                assert(s.drop_last().no_duplicates());
                assert(!s.drop_last().contains(s.last())) by {
                    if s.drop_last().contains(s.last()) {
                        let k = choose|k: int| 0 <= k < s.drop_last().len() && s.drop_last()[k] == s.last();
                        assert(s[k] == s[s.len() - 1]);
                    }
                }
                assert(!rest.contains(s.last()));
                let r = rest.push(s.last());
                assert forall|i: int, j: int| 0 <= i < r.len() && 0 <= j < r.len() && i != j implies r[i] != r[j] by {
                    if i < rest.len() && j < rest.len() {
                        assert(r[i] == rest[i] && r[j] == rest[j]);
                    } else if i < rest.len() {
                        assert(r[i] == rest[i]);
                        assert(rest.contains(r[i]));
                    } else if j < rest.len() {
                        assert(r[j] == rest[j]);
                        assert(rest.contains(r[j]));
                    }
                }
            }
        } else {
            if s.no_duplicates() {
                assert(s.drop_last().no_duplicates());
            }
        }
    }
}

/// The members of a chat room, in the order in which they joined; each
/// name occurs once.
pub struct Room {
    members: Vec<String>,
}

impl View for Room {
    type V = Seq<Seq<char>>;

    closed spec fn view(&self) -> Seq<Seq<char>> {
        self.members@.map_values(|m: String| m@)
    }
}

impl Room {
    /// No name occurs twice among the members.
    #[verifier::type_invariant]
    closed spec fn members_distinct(self) -> bool {
        self.members@.map_values(|m: String| m@).no_duplicates()
    }

    pub fn new() -> (res: Room)
        ensures
            res@.no_duplicates(),
            res@ == Seq::<Seq<char>>::empty(),
    {
        let res = Room { members: Vec::new() };
        assert(res@ =~= Seq::<Seq<char>>::empty());
        res
    }

    /// Whether `name` is a member.
    pub fn contains(&self, name: &str) -> (res: bool)
        ensures
            res == self@.contains(name@),
            self@.no_duplicates(),
    {
        proof {
            use_type_invariant(self);
        }
        let target = name.to_owned();
        let n = self.members.len();
        let mut i: usize = 0;
        while i < n
            invariant
                n == self@.len(),
                n == self.members@.len(),
                target@ == name@,
                self@.no_duplicates(),
                i <= n,
                forall|j: int| 0 <= j < i ==> self@[j] != name@,
            decreases n - i,
        {
            if self.members[i] == target {
                assert(self@[i as int] == name@);
                return true;
            }
            i = i + 1;
        }
        false
    }

    /// The text listing the members, for a newcomer.
    pub fn listing(&self) -> (res: String)
        ensures
            res@ == listing_text(self@),
            self@.no_duplicates(),
    {
        proof {
            use_type_invariant(self);
        }
        let mut names = String::new();
        let n = self.members.len();
        let mut i: usize = 0;
        while i < n
            invariant
                n == self@.len(),
                n == self.members@.len(),
                i <= n,
                names@ == join_names(self@.take(i as int)),
            decreases n - i,
        {
            assert(self@.take(i as int + 1).drop_last() == self@.take(i as int));
            assert(self@.take(i as int + 1).last() == self.members@[i as int]@);
            if i > 0 {
                names.append(", ");
            } else {
                assert(self@.take(1).len() == 1);
            }
            names.append(self.members[i].as_str());
            i = i + 1;
        }
        assert(self@.take(n as int) == self@);
        "* The room contains: ".to_owned().concat(names.as_str()).concat("\n")
    }

    /// Sends `text` to every member, in order.
    fn deliver_to_all(&self, text: &String) -> (res: Vec<Outgoing>)
        ensures
            delivers(res@, self@, text@),
    {
        let mut res: Vec<Outgoing> = Vec::new();
        let n = self.members.len();
        let mut i: usize = 0;
        while i < n
            invariant
                n == self@.len(),
                n == self.members@.len(),
                i <= n,
                delivers(res@, self@.take(i as int), text@),
            decreases n - i,
        {
            res.push(Outgoing { recipient: self.members[i].clone(), text: text.clone() });
            i = i + 1;
        }
        assert(self@.take(n as int) == self@);
        res
    }

    /// A newcomer named `name` joins: everyone already present is told,
    /// and the newcomer gets the listing of those present. A name that is
    /// already a member is not added twice.
    pub fn join(&mut self, name: &str) -> (res: (Vec<Outgoing>, String))
        ensures
            final(self)@.no_duplicates(),
            final(self)@ == if old(self)@.contains(name@) {
                old(self)@
            } else {
                old(self)@.push(name@)
            },
            delivers(res.0@, old(self)@, joined_text(name@)),
            res.1@ == listing_text(old(self)@),
    {
        proof {
            use_type_invariant(&*self);
        }
        let text = "* ".to_owned().concat(name).concat(" has entered the room\n");
        let deliveries = self.deliver_to_all(&text);
        let listing = self.listing();
        if !self.contains(name) {
            let ghost before = self@;
            let mut members: Vec<String> = Vec::new();
            std::mem::swap(&mut members, &mut self.members);
            members.push(name.to_owned());
            assert(members@.map_values(|m: String| m@) =~= before.push(name@));
            self.members = members;
        }
        (deliveries, listing)
    }

    /// `sender` says `line`: the trimmed line, prefixed with the sender's
    /// name, goes to every other member, in order.
    pub fn post(&self, sender: &str, line: Vec<u8>) -> (res: Vec<Outgoing>)
        requires
            valid_utf8(line@),
        ensures
            delivers(res@, without(self@, sender@), chat_text(sender@, decode_utf8(line@))),
            self@.no_duplicates(),
            without(self@, sender@).no_duplicates(),
    {
        proof {
            use_type_invariant(self);
            lemma_without(self@, sender@);
        }
        let raw = match string_from_utf8(line) {
            Ok(t) => t,
            Err(_) => {
                assert(false);
                String::new()
            },
        };
        let body = trim(raw.as_str());
        let text = "[".to_owned().concat(sender).concat("] ").concat(body.as_str()).concat("\n");
        let target = sender.to_owned();
        let mut res: Vec<Outgoing> = Vec::new();
        let n = self.members.len();
        let mut i: usize = 0;
        while i < n
            invariant
                n == self@.len(),
                n == self.members@.len(),
                target@ == sender@,
                i <= n,
                delivers(res@, without(self@.take(i as int), sender@), text@),
            decreases n - i,
        {
            assert(self@.take(i as int + 1).drop_last() == self@.take(i as int));
            assert(self@.take(i as int + 1).last() == self.members@[i as int]@);
            if self.members[i] != target {
                res.push(Outgoing { recipient: self.members[i].clone(), text: text.clone() });
            }
            i = i + 1;
        }
        assert(self@.take(n as int) == self@);
        res
    }

    /// The member named `name` leaves: it is removed, and everyone
    /// remaining is told, in order.
    pub fn leave(&mut self, name: &str) -> (res: Vec<Outgoing>)
        ensures
            final(self)@.no_duplicates(),
            final(self)@ == without(old(self)@, name@),
            delivers(res@, final(self)@, left_text(name@)),
    {
        proof {
            use_type_invariant(&*self);
        }
        let target = name.to_owned();
        let mut kept: Vec<String> = Vec::new();
        let n = self.members.len();
        let mut i: usize = 0;
        while i < n
            invariant
                n == self@.len(),
                n == self.members@.len(),
                target@ == name@,
                i <= n,
                kept@.map_values(|m: String| m@) == without(self@.take(i as int), name@),
            decreases n - i,
        {
            assert(self@.take(i as int + 1).drop_last() == self@.take(i as int));
            assert(self@.take(i as int + 1).last() == self.members@[i as int]@);
            if self.members[i] != target {
                let ghost before = kept@;
                kept.push(self.members[i].clone());
                assert(kept@.map_values(|m: String| m@) == before.map_values(|m: String| m@).push(self.members@[i as int]@));
            }
            i = i + 1;
        }
        assert(self@.take(n as int) == self@);
        proof {
            lemma_without(self@, name@);
        }
        self.members = kept;
        let text = "* ".to_owned().concat(name).concat(" has left the room\n");
        self.deliver_to_all(&text)
    }
}

/// A line is never relayed back to its sender.
pub proof fn law_line_not_echoed(members: Seq<Seq<char>>, sender: Seq<char>)
    ensures
        !without(members, sender).contains(sender),
{
    lemma_without(members, sender);
}

/// After joining, a name is a member; after leaving, it is not; leaving
/// keeps every other member.
pub proof fn law_join_and_leave(members: Seq<Seq<char>>, name: Seq<char>, other: Seq<char>)
    requires
        other != name,
    ensures
        (if members.contains(name) { members } else { members.push(name) }).contains(name),
        !without(members, name).contains(name),
        without(members, name).contains(other) == members.contains(other),
{
    lemma_without(members, name);
    if !members.contains(name) {
        assert(members.push(name)[members.len() as int] == name);
    }
}

/// Appending a whitespace character changes the leading whitespace only
/// when `s` is all whitespace.
proof fn lemma_leading_whitespace_push(s: Seq<char>, c: char)
    requires
        is_white_space(c),
    ensures
        leading_whitespace(s) <= s.len(),
        leading_whitespace(s) < s.len() ==> leading_whitespace(s.push(c)) == leading_whitespace(s),
        leading_whitespace(s) == s.len() ==> leading_whitespace(s.push(c)) == s.len() + 1,
    decreases s.len(),
{
    if s.len() == 0 {
        assert(s.push(c)[0] == c);
        assert(s.push(c).drop_first().len() == 0);
        assert(leading_whitespace(s.push(c).drop_first()) == 0);
    } else {
        assert(s.push(c)[0] == s[0]);
        assert(s.push(c).drop_first() == s.drop_first().push(c));
        lemma_leading_whitespace_push(s.drop_first(), c);
    }
}

/// The line end that ends every line is trimmed away with the other
/// whitespace: a line trims to the same text with or without it.
pub proof fn law_line_end_is_trimmed(s: Seq<char>)
    ensures
        trim_spec(s.push('\n')) == trim_spec(s),
{
    let t = s.push('\n');
    lemma_leading_whitespace_push(s, '\n');
    lemma_without_trailing_bound(s);
    assert(t.drop_last() == s);
    assert(without_trailing_whitespace(t) == without_trailing_whitespace(s));
    if leading_whitespace(s) < without_trailing_whitespace(s) {
        assert(t.subrange(leading_whitespace(s) as int, without_trailing_whitespace(s) as int)
            == s.subrange(leading_whitespace(s) as int, without_trailing_whitespace(s) as int));
    }
}

/// A name is accepted exactly when it is one to sixteen bytes long and
/// every character, at every position, is a letter or digit.
pub proof fn law_name_accepted_iff_every_char_allowed(name: Seq<char>)
    ensures
        user_name_verdict(name) is Ok <==> (1 <= encode_utf8(name).len() <= 16
            && forall|i: int| 0 <= i < name.len() ==> #[trigger] is_name_char(name[i])),
        forall|i: int| 0 <= i < name.len() && !#[trigger] is_name_char(name[i])
            && 1 <= encode_utf8(name).len() <= 16
            ==> user_name_verdict(name) == Err::<(), UserNameError>(UserNameError::InvalidName),
{
}

/// Where entry `i` starts in a list of names separated by `, `: the
/// lengths of the entries before it, each with its two-character separator.
pub open spec fn entry_offset(names: Seq<Seq<char>>, i: int) -> int
    decreases i,
{
    if i <= 0 {
        0
    } else {
        entry_offset(names, i - 1) + names[i - 1].len() + 2
    }
}

proof fn lemma_entry_offset_prefix(names: Seq<Seq<char>>, i: int)
    requires
        0 <= i < names.len(),
    ensures
        entry_offset(names.drop_last(), i) == entry_offset(names, i),
    decreases i,
{
    if i > 0 {
        lemma_entry_offset_prefix(names, i - 1);
    }
}

proof fn lemma_subrange_left(a: Seq<char>, b: Seq<char>, x: int, y: int)
    requires
        0 <= x <= y <= a.len(),
    ensures
        (a + b).subrange(x, y) == a.subrange(x, y),
{
    assert((a + b).subrange(x, y) =~= a.subrange(x, y));
}

proof fn lemma_subrange_right(a: Seq<char>, b: Seq<char>, x: int, y: int)
    requires
        a.len() <= x <= y <= a.len() + b.len(),
    ensures
        (a + b).subrange(x, y) == b.subrange(x - a.len(), y - a.len()),
{
    assert((a + b).subrange(x, y) =~= b.subrange(x - a.len(), y - a.len()));
}

/// The offsets of entries are not negative and grow with their index.
proof fn lemma_entry_offset_monotone(names: Seq<Seq<char>>, i: int, k: int)
    requires
        0 <= i < k <= names.len(),
    ensures
        0 <= entry_offset(names, i),
        entry_offset(names, i) + names[i].len() + 2 <= entry_offset(names, k),
    decreases k,
{
    if i + 1 < k {
        lemma_entry_offset_monotone(names, i, k - 1);
    } else if i > 0 {
        lemma_entry_offset_monotone(names, i - 1, i);
    }
}

/// The length of a listing: the names' lengths plus two per separator.
proof fn lemma_join_len(names: Seq<Seq<char>>)
    requires
        names.len() >= 1,
    ensures
        join_names(names).len() == entry_offset(names, names.len() - 1) + names.last().len(),
    decreases names.len(),
{
    if names.len() > 1 {
        reveal_strlit(", ");
        let rest = names.drop_last();
        lemma_join_len(rest);
        lemma_entry_offset_prefix(names, names.len() - 2);
    }
}

/// Name `i` stands in full at its offset in the listing.
proof fn lemma_join_entry(names: Seq<Seq<char>>, i: int)
    requires
        0 <= i < names.len(),
    ensures
        join_names(names).subrange(entry_offset(names, i), entry_offset(names, i) + names[i].len())
            == names[i],
    decreases names.len(),
{
    reveal_strlit(", ");
    let n = names.len();
    if n == 1 {
        assert(names[0].subrange(0, names[0].len() as int) == names[0]);
    } else {
        let rest = names.drop_last();
        let j = join_names(rest);
        let head = j + ", "@;
        assert(join_names(names) == head + names.last());
        lemma_join_len(rest);
        lemma_entry_offset_prefix(names, n - 2);
        if i < n - 1 {
            lemma_join_entry(rest, i);
            lemma_entry_offset_prefix(names, i);
            if i < n - 2 {
                lemma_entry_offset_monotone(rest, i, n - 2);
            } else {
                if i > 0 {
                    lemma_entry_offset_monotone(rest, 0, i);
                }
            }
            assert(rest[i] == names[i]);
            let x = entry_offset(names, i);
            let y = x + names[i].len();
            lemma_subrange_left(head, names.last(), x, y);
            lemma_subrange_left(j, ", "@, x, y);
        } else {
            if n - 2 > 0 {
                lemma_entry_offset_monotone(rest, 0, n - 2);
            }
            lemma_subrange_right(head, names.last(), head.len() as int, head.len() + names.last().len() as int);
            assert(names.last().subrange(0, names.last().len() as int) == names.last());
        }
    }
}

/// Every name after the first is preceded by `, ` in the listing.
proof fn lemma_join_separator(names: Seq<Seq<char>>, i: int)
    requires
        0 < i < names.len(),
    ensures
        join_names(names).subrange(entry_offset(names, i) - 2, entry_offset(names, i)) == ", "@,
    decreases names.len(),
{
    reveal_strlit(", ");
    let n = names.len();
    let rest = names.drop_last();
    let j = join_names(rest);
    let head = j + ", "@;
    assert(join_names(names) == head + names.last());
    lemma_join_len(rest);
    lemma_entry_offset_prefix(names, n - 2);
    lemma_entry_offset_monotone(names, i - 1, i);
    if i < n - 1 {
        lemma_join_separator(rest, i);
        lemma_entry_offset_prefix(names, i);
        if i < n - 2 {
            lemma_entry_offset_monotone(rest, i, n - 2);
        }
        let x = entry_offset(names, i);
        lemma_subrange_left(head, names.last(), x - 2, x);
        lemma_subrange_left(j, ", "@, x - 2, x);
    } else {
        lemma_subrange_left(head, names.last(), j.len() as int, j.len() as int + 2);
        lemma_subrange_right(j, ", "@, j.len() as int, j.len() as int + 2);
        assert(", "@.subrange(0, 2) == ", "@);
    }
}

/// The listing of names holds every name in full, in order: name `i` stands
/// at [`entry_offset`] `i`, each name after the first is preceded by `, `,
/// and nothing else is there, so its length is the sum of the names'
/// lengths plus two for each separator.
pub proof fn law_listing_names_every_member(names: Seq<Seq<char>>)
    requires
        names.len() >= 1,
    ensures
        join_names(names).len() == entry_offset(names, names.len() - 1) + names.last().len(),
        forall|i: int| 0 <= i < names.len() ==> join_names(names).subrange(
            entry_offset(names, i),
            entry_offset(names, i) + names[i].len(),
        ) == #[trigger] names[i],
        forall|i: int| 0 < i < names.len() ==> join_names(names).subrange(
            #[trigger] entry_offset(names, i) - 2,
            entry_offset(names, i),
        ) == ", "@,
{
    lemma_join_len(names);
    assert forall|i: int| 0 <= i < names.len() implies join_names(names).subrange(
        entry_offset(names, i),
        entry_offset(names, i) + names[i].len(),
    ) == #[trigger] names[i] by {
        lemma_join_entry(names, i);
    }
    assert forall|i: int| 0 < i < names.len() implies join_names(names).subrange(
        #[trigger] entry_offset(names, i) - 2,
        entry_offset(names, i),
    ) == ", "@ by {
        lemma_join_separator(names, i);
    }
}

/// `t` is `s` with exactly its leading and trailing whitespace removed: a
/// stretch `s[a..b]` with only whitespace before and after it, which, when
/// not empty, starts and ends with a character that is not whitespace.
pub open spec fn is_trim_of(t: Seq<char>, s: Seq<char>) -> bool {
    exists|a: int, b: int|
        {
            &&& 0 <= a <= b <= s.len()
            &&& t == s.subrange(a, b)
            &&& forall|i: int| 0 <= i < a ==> is_white_space(#[trigger] s[i])
            &&& forall|i: int| b <= i < s.len() ==> is_white_space(#[trigger] s[i])
            &&& a < b ==> !is_white_space(s[a]) && !is_white_space(s[b - 1])
        }
}

/// What [`leading_whitespace`] counts: the whitespace before the first
/// other character.
proof fn lemma_leading_whitespace_facts(s: Seq<char>)
    ensures
        leading_whitespace(s) <= s.len(),
        forall|i: int| 0 <= i < leading_whitespace(s) ==> is_white_space(#[trigger] s[i]),
        leading_whitespace(s) < s.len() ==> !is_white_space(s[leading_whitespace(s) as int]),
    decreases s.len(),
{
    if s.len() > 0 && is_white_space(s[0]) {
        let r = s.drop_first();
        lemma_leading_whitespace_facts(r);
        assert forall|i: int| 0 <= i < leading_whitespace(s) implies is_white_space(#[trigger] s[i]) by {
            if i > 0 {
                assert(s[i] == r[i - 1]);
            }
        }
        if leading_whitespace(s) < s.len() {
            assert(s[leading_whitespace(s) as int] == r[leading_whitespace(r) as int]);
        }
    }
}

/// What [`without_trailing_whitespace`] keeps: everything up to the last
/// character that is not whitespace.
proof fn lemma_trailing_whitespace_facts(s: Seq<char>)
    ensures
        without_trailing_whitespace(s) <= s.len(),
        forall|i: int| without_trailing_whitespace(s) <= i < s.len() ==> is_white_space(#[trigger] s[i]),
        without_trailing_whitespace(s) > 0 ==> !is_white_space(s[without_trailing_whitespace(s) - 1]),
    decreases s.len(),
{
    if s.len() > 0 && is_white_space(s.last()) {
        let r = s.drop_last();
        lemma_trailing_whitespace_facts(r);
        assert forall|i: int| without_trailing_whitespace(s) <= i < s.len() implies is_white_space(
            #[trigger] s[i],
        ) by {
            if i < s.len() - 1 {
                assert(s[i] == r[i]);
            }
        }
        if without_trailing_whitespace(s) > 0 {
            assert(s[without_trailing_whitespace(s) - 1] == r[without_trailing_whitespace(r) - 1]);
        }
    }
}

/// The leading whitespace ends at the first character that is not
/// whitespace.
proof fn lemma_leading_whitespace_at(s: Seq<char>, a: int)
    requires
        0 <= a <= s.len(),
        forall|i: int| 0 <= i < a ==> is_white_space(#[trigger] s[i]),
        a < s.len() ==> !is_white_space(s[a]),
    ensures
        leading_whitespace(s) == a,
    decreases a,
{
    if a > 0 {
        let r = s.drop_first();
        assert(is_white_space(s[0]));
        assert forall|i: int| 0 <= i < a - 1 implies is_white_space(#[trigger] r[i]) by {
            assert(r[i] == s[i + 1]);
        }
        if a - 1 < r.len() {
            assert(r[a - 1] == s[a]);
        }
        lemma_leading_whitespace_at(r, a - 1);
    }
}

/// The trailing whitespace starts after the last character that is not
/// whitespace.
proof fn lemma_trailing_whitespace_at(s: Seq<char>, b: int)
    requires
        0 <= b <= s.len(),
        forall|i: int| b <= i < s.len() ==> is_white_space(#[trigger] s[i]),
        b > 0 ==> !is_white_space(s[b - 1]),
    ensures
        without_trailing_whitespace(s) == b,
    decreases s.len() - b,
{
    if b < s.len() {
        let r = s.drop_last();
        assert(is_white_space(s[s.len() - 1]));
        assert forall|i: int| b <= i < r.len() implies is_white_space(#[trigger] r[i]) by {
            assert(r[i] == s[i]);
        }
        if b > 0 {
            assert(r[b - 1] == s[b - 1]);
        }
        lemma_trailing_whitespace_at(r, b);
    }
}

/// Trimming removes exactly the leading and trailing whitespace, and
/// nothing else: [`trim_spec`] gives a trim of `s`, and any trim of `s` is
/// that one.
pub proof fn law_trim_removes_only_outer_whitespace(s: Seq<char>, t: Seq<char>)
    ensures
        is_trim_of(trim_spec(s), s),
        is_trim_of(t, s) ==> t == trim_spec(s),
{
    lemma_leading_whitespace_facts(s);
    lemma_trailing_whitespace_facts(s);
    let l = leading_whitespace(s) as int;
    let w = without_trailing_whitespace(s) as int;
    if l < w {
        assert(is_white_space(s[w - 1]) == false);
        assert(trim_spec(s) == s.subrange(l, w));
    } else {
        assert forall|i: int| 0 <= i < w implies is_white_space(#[trigger] s[i]) by {}
        assert(trim_spec(s) =~= s.subrange(w, w));
    }
    if is_trim_of(t, s) {
        let (a, b) = choose|a: int, b: int|
            {
                &&& 0 <= a <= b <= s.len()
                &&& t == s.subrange(a, b)
                &&& forall|i: int| 0 <= i < a ==> is_white_space(#[trigger] s[i])
                &&& forall|i: int| b <= i < s.len() ==> is_white_space(#[trigger] s[i])
                &&& a < b ==> !is_white_space(s[a]) && !is_white_space(s[b - 1])
            };
        if a < b {
            lemma_leading_whitespace_at(s, a);
            lemma_trailing_whitespace_at(s, b);
        } else {
            assert forall|i: int| 0 <= i < s.len() implies is_white_space(#[trigger] s[i]) by {
                if i >= a {
                    assert(b <= i);
                }
            }
            lemma_leading_whitespace_at(s, s.len() as int);
            assert(t =~= Seq::<char>::empty());
        }
    }
}

/// A relayed line carries the sender's whole line, with exactly its
/// leading and trailing whitespace removed and nothing cut from it.
pub proof fn law_relay_carries_whole_line(name: Seq<char>, line: Seq<char>)
    ensures
        exists|t: Seq<char>| is_trim_of(t, line) && chat_text(name, line) == "["@ + name + "] "@ + t + "\n"@,
{
    law_trim_removes_only_outer_whitespace(line, line);
    assert(is_trim_of(trim_spec(line), line));
}

} // verus!
