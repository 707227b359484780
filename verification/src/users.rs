//! Who is allowed to connect to a host.
//!
//! Two sources, in this order: the machine's own accounts, and an account file
//! with one `username:hash` line per account. Only an Argon2 hash is kept, so
//! reading the file off a robot does not hand over a working credential.
use argon2::password_hash::phc::PasswordHash;
use argon2::password_hash::{PasswordHasher, PasswordVerifier};
use vstd::prelude::*;

use crate::text::{
    chars_of, decimal, holds, is_before, is_white, pieces, pieces_of_plain, precedes,
    pieces_hold_no_separator, precedes_is_asymmetric, precedes_is_transitive, push_decimal, quote,
    quoted, same, split_on, string_of, subrange, trim, trimmed, trimmed_end, trimmed_start,
    trimming_twice_changes_nothing, views, white,
};

verus! {

/// Whether a stored PHC string is an Argon2 hash of a password.
pub uninterp spec fn is_hash_of(stored: Seq<char>, password: Seq<u8>) -> bool;

/// `PasswordHash::new` and `Argon2::verify_password`: whether the stored string is
/// a hash of the password. `None` where the string is no PHC string, or where the
/// hash could not be computed, for want of memory among other reasons; nothing is
/// claimed then.
#[verifier::external_body]
fn check_hash(stored: &str, password: &[u8]) -> (r: Option<bool>)
    ensures
        r == Some(true) ==> is_hash_of(stored@, password@),
        r == Some(false) ==> !is_hash_of(stored@, password@),
{
    let parsed = PasswordHash::new(stored).ok()?;
    match argon2::Argon2::default().verify_password(password, &parsed) {
        Ok(()) => Some(true),
        Err(argon2::password_hash::Error::PasswordInvalid) => Some(false),
        Err(_) => None,
    }
}

/// `Argon2::hash_password`, written as a PHC string. The salt is drawn at random,
/// so two calls differ; what holds of each is that the string is a hash of the
/// password, is not empty and holds no white space. A failure comes back in Argon2's own
/// words, of which nothing is claimed.
#[verifier::external_body]
fn make_hash(password: &[u8]) -> (r: Result<String, String>)
    ensures
        r matches Ok(h) ==> is_hash_of(h@, password@) && h@.len() > 0 && forall|i: int|
            0 <= i < h@.len() ==> !white(#[trigger] h@[i]),
{
    let made: Result<PasswordHash, argon2::password_hash::Error> =
        argon2::Argon2::default().hash_password(password);
    match made {
        Ok(hash) => Ok(hash.to_string()),
        Err(e) => Err(e.to_string()),
    }
}

/// Name of the account file, next to the host's identity.
pub const FILE: &'static str = "users";

/// Where the account file is.
pub fn path(identity_dir: &str) -> (r: String)
    ensures
        r@ == crate::robot_files::path_join(identity_dir@, FILE@),
{
    crate::robot_files::join(identity_dir, FILE)
}

/// One account.
#[derive(Debug)]
pub struct Account {
    pub name: String,
    pub hash: String,
}

/// The accounts of a host, by name.
#[derive(Debug)]
pub struct Users {
    list: Vec<Account>,
}

/// Name and hash of each account.
pub open spec fn account_views(v: Seq<Account>) -> Seq<(Seq<char>, Seq<char>)> {
    v.map_values(|a: Account| (a.name@, a.hash@))
}

impl View for Users {
    type V = Seq<(Seq<char>, Seq<char>)>;

    closed spec fn view(&self) -> Seq<(Seq<char>, Seq<char>)> {
        account_views(self.list@)
    }
}

/// Whether accounts are ordered by name, none twice.
pub open spec fn by_name(users: Seq<(Seq<char>, Seq<char>)>) -> bool {
    forall|i: int, j: int|
        0 <= i < j < users.len() ==> precedes(
            (#[trigger] users[i]).0,
            (#[trigger] users[j]).0,
        )
}

/// The accounts with one added or replaced.
pub open spec fn with_account(
    users: Seq<(Seq<char>, Seq<char>)>,
    name: Seq<char>,
    hash: Seq<char>,
) -> Seq<(Seq<char>, Seq<char>)>
    decreases users.len(),
{
    if users.len() == 0 {
        seq![(name, hash)]
    } else if users.last().0 == name {
        users.drop_last().push((name, hash))
    } else if precedes(users.last().0, name) {
        users.push((name, hash))
    } else {
        with_account(users.drop_last(), name, hash).push(users.last())
    }
}

/// The hash of an account, if there is one of that name.
pub open spec fn hash_of(users: Seq<(Seq<char>, Seq<char>)>, name: Seq<char>) -> Option<Seq<char>>
    decreases users.len(),
{
    if users.len() == 0 {
        None
    } else if users.last().0 == name {
        Some(users.last().1)
    } else {
        hash_of(users.drop_last(), name)
    }
}

proof fn lemma_total(a: Seq<char>, b: Seq<char>)
    ensures
        a == b || precedes(a, b) || precedes(b, a),
    decreases a.len(),
{
    if a.len() > 0 && b.len() > 0 && a[0] == b[0] {
        lemma_total(a.drop_first(), b.drop_first());
        if a.drop_first() == b.drop_first() {
            assert(a =~= seq![a[0]] + a.drop_first());
            assert(b =~= seq![b[0]] + b.drop_first());
        }
    } else if a.len() == 0 && b.len() == 0 {
        assert(a =~= b);
    }
}

proof fn lemma_with_account(users: Seq<(Seq<char>, Seq<char>)>, name: Seq<char>, hash: Seq<char>)
    requires
        by_name(users),
    ensures
        by_name(with_account(users, name, hash)),
        forall|i: int|
            0 <= i < with_account(users, name, hash).len() ==> (#[trigger] with_account(
                users,
                name,
                hash,
            )[i]) == (name, hash) || users.contains(with_account(users, name, hash)[i]),
    decreases users.len(),
{
    let w = with_account(users, name, hash);
    if users.len() == 0 {
    } else if users.last().0 == name {
        assert forall|i: int| 0 <= i < w.len() implies (#[trigger] w[i]) == (name, hash)
            || users.contains(w[i]) by {
            if i < users.len() - 1 {
                assert(users[i] == w[i]);
            }
        }
        assert forall|i: int, j: int| 0 <= i < j < w.len() implies precedes(
            (#[trigger] w[i]).0,
            (#[trigger] w[j]).0,
        ) by {
            assert(precedes(users[i].0, users[j].0));
        }
    } else if precedes(users.last().0, name) {
        assert forall|i: int| 0 <= i < w.len() implies (#[trigger] w[i]) == (name, hash)
            || users.contains(w[i]) by {
            if i < users.len() {
                assert(users[i] == w[i]);
            }
        }
        assert forall|i: int, j: int| 0 <= i < j < w.len() implies precedes(
            (#[trigger] w[i]).0,
            (#[trigger] w[j]).0,
        ) by {
            if j < users.len() {
                assert(precedes(users[i].0, users[j].0));
            } else if i < users.len() - 1 {
                assert(precedes(users[i].0, users[users.len() - 1].0));
                precedes_is_transitive(users[i].0, users.last().0, name);
            }
        }
    } else {
        let rest = users.drop_last();
        lemma_with_account(rest, name, hash);
        let q = with_account(rest, name, hash);
        lemma_total(users.last().0, name);
        assert forall|i: int| 0 <= i < q.len() implies precedes(
            (#[trigger] q[i]).0,
            users.last().0,
        ) by {
            if q[i] != (name, hash) {
                assert(rest.contains(q[i]));
                let k = choose|k: int| 0 <= k < rest.len() && rest[k] == q[i];
                assert(precedes(users[k].0, users[users.len() - 1].0));
            }
        }
        assert forall|i: int| 0 <= i < w.len() implies (#[trigger] w[i]) == (name, hash)
            || users.contains(w[i]) by {
            if i < q.len() {
                assert(w[i] == q[i]);
                if q[i] != (name, hash) {
                    let k = choose|k: int| 0 <= k < rest.len() && rest[k] == q[i];
                    assert(users[k] == w[i]);
                }
            } else {
                assert(users[users.len() - 1] == w[i]);
            }
        }
    }
}

/// Adding an account gives it that hash and leaves every other account alone.
pub proof fn adding_keeps_the_other_accounts(
    users: Seq<(Seq<char>, Seq<char>)>,
    name: Seq<char>,
    hash: Seq<char>,
    other: Seq<char>,
)
    requires
        by_name(users),
    ensures
        hash_of(with_account(users, name, hash), name) == Some(hash),
        other != name ==> hash_of(with_account(users, name, hash), other) == hash_of(users, other),
    decreases users.len(),
{
    let w = with_account(users, name, hash);
    if users.len() == 0 {
        assert(w.drop_last() =~= users);
        assert(w.last() == (name, hash));
    } else if users.last().0 == name {
        assert(w.drop_last() =~= users.drop_last());
    } else if precedes(users.last().0, name) {
        assert(w.drop_last() =~= users);
    } else {
        adding_keeps_the_other_accounts(users.drop_last(), name, hash, other);
        assert(w.drop_last() =~= with_account(users.drop_last(), name, hash));
    }
}

impl Users {
    /// A host with no accounts: it refuses every sign-in.
    pub fn new() -> (r: Self)
        ensures
            r@.len() == 0,
            by_name(r@),
    {
        Users { list: Vec::new() }
    }

    /// How many accounts there are.
    pub fn len(&self) -> (r: usize)
        ensures
            r == self@.len(),
    {
        self.list.len()
    }

    /// Whether there is no account.
    pub fn is_empty(&self) -> (r: bool)
        ensures
            r == (self@.len() == 0),
    {
        self.list.len() == 0
    }

    /// The names of the accounts, in order.
    pub fn names(&self) -> (r: Vec<String>)
        ensures
            r@.len() == self@.len(),
            forall|i: int| 0 <= i < r@.len() ==> (#[trigger] r@[i])@ == self@[i].0,
    {
        let mut out: Vec<String> = Vec::new();
        let mut i: usize = 0;
        while i < self.list.len()
            invariant
                i <= self.list.len(),
                out@.len() == i,
                forall|j: int| 0 <= j < i ==> (#[trigger] out@[j])@ == self@[j].0,
            decreases self.list.len() - i,
        {
            out.push(self.list[i].name.clone());
            i = i + 1;
        }
        out
    }

    /// The hash of an account.
    pub fn get(&self, name: &str) -> (r: Option<String>)
        ensures
            match r {
                Some(h) => hash_of(self@, name@) == Some(h@),
                None => hash_of(self@, name@) is None,
            },
    {
        let mut i: usize = self.list.len();
        assert(self@.take(i as int) =~= self@);
        while i > 0
            invariant
                i <= self.list.len(),
                hash_of(self@, name@) == hash_of(self@.take(i as int), name@),
            decreases i,
        {
            assert(self@.take(i as int).drop_last() =~= self@.take(i - 1));
            if same(&self.list[i - 1].name, name) {
                return Some(self.list[i - 1].hash.clone());
            }
            i = i - 1;
        }
        None
    }

    /// Adds or replaces an account. Says whether one was replaced.
    pub fn insert(&mut self, name: String, hash: String) -> (r: bool)
        requires
            by_name(old(self)@),
        ensures
            final(self)@ == with_account(old(self)@, name@, hash@),
            by_name(final(self)@),
            r == (hash_of(old(self)@, name@) is Some),
    {
        let replaced = self.get(&name).is_some();
        proof {
            lemma_with_account(self@, name@, hash@);
        }
        let key = chars_of(&name);
        let ghost all = self@;
        let mut at: usize = self.list.len();
        assert(all.take(at as int) =~= all);
        assert(all.skip(at as int) =~= Seq::<(Seq<char>, Seq<char>)>::empty());
        assert(with_account(all, name@, hash@) =~= with_account(all.take(at as int), name@, hash@)
            + all.skip(at as int));
        while at > 0 && !same(&self.list[at - 1].name, &name) && !is_before(
            &chars_of(&self.list[at - 1].name),
            &key,
        )
            invariant
                all == self@,
                *self == *old(self),
                key@ == name@,
                at <= self.list.len(),
                with_account(all, name@, hash@) == with_account(all.take(at as int), name@, hash@)
                    + all.skip(at as int),
            decreases at,
        {
            proof {
                let t = all.take(at as int);
                assert(t.drop_last() =~= all.take(at - 1));
                assert(t.last() == all[at - 1]);
                assert(with_account(t, name@, hash@) + all.skip(at as int) =~= with_account(
                    all.take(at - 1),
                    name@,
                    hash@,
                ) + all.skip(at - 1));
            }
            at = at - 1;
        }
        let ghost goal = with_account(all, name@, hash@);
        if at > 0 && same(&self.list[at - 1].name, &name) {
            assert(all.take(at as int).drop_last() =~= all.take(at - 1));
            self.list.set(at - 1, Account { name, hash });
            assert(self@ =~= goal);
        } else {
            self.list.insert(at, Account { name, hash });
            assert(self@ =~= goal);
        }
        replaced
    }
}

/// The first position of a colon.
pub open spec fn colon(s: Seq<char>, from: int) -> Option<int>
    decreases s.len() - from,
{
    if from < 0 || from >= s.len() {
        None
    } else if s[from] == ':' {
        Some(from)
    } else {
        colon(s, from + 1)
    }
}

/// Where the name begins on a line of an account file. A name that starts with `#` stands
/// behind a colon, because its line would be a comment otherwise.
pub open spec fn name_start(line: Seq<char>) -> int {
    if line.len() > 1 && line[0] == ':' && line[1] == '#' && colon(line, 1) is Some {
        1
    } else {
        0
    }
}

/// The account that a line describes: the name up to a colon, and the hash after it.
pub open spec fn account_in(line: Seq<char>) -> Option<(Seq<char>, Seq<char>)> {
    let from = name_start(line);
    match colon(line, from) {
        None => None,
        Some(i) => Some((line.subrange(from, i), line.skip(i + 1))),
    }
}

/// The accounts that the lines of a file describe, or the number of the first line
/// that is no account. Empty lines and lines that start with `#` are passed over.
pub open spec fn parsed(lines: Seq<Seq<char>>) -> Result<Seq<(Seq<char>, Seq<char>)>, nat>
    decreases lines.len(),
{
    if lines.len() == 0 {
        Ok(Seq::empty())
    } else {
        match parsed(lines.drop_last()) {
            Err(n) => Err(n),
            Ok(users) => {
                let line = trimmed(lines.last());
                if line.len() == 0 || line[0] == '#' {
                    Ok(users)
                } else {
                    match account_in(line) {
                        None => Err(lines.len()),
                        Some(a) => Ok(with_account(users, a.0, a.1)),
                    }
                }
            },
        }
    }
}

fn find_colon(v: &Vec<char>, from: usize) -> (r: Option<usize>)
    requires
        from <= v.len(),
    ensures
        match r {
            Some(i) => colon(v@, from as int) == Some(i as int) && from <= i < v@.len(),
            None => colon(v@, from as int) is None,
        },
{
    let mut i: usize = from;
    while i < v.len()
        invariant
            from <= i <= v.len(),
            colon(v@, from as int) == colon(v@, i as int),
        decreases v.len() - i,
    {
        if v[i] == ':' {
            return Some(i);
        }
        i = i + 1;
    }
    None
}

proof fn lemma_parse_fails(lines: Seq<Seq<char>>, i: int)
    requires
        0 <= i <= lines.len(),
        parsed(lines.take(i)) is Err,
    ensures
        parsed(lines) == parsed(lines.take(i)),
    decreases lines.len() - i,
{
    if i == lines.len() {
        assert(lines.take(i) =~= lines);
    } else {
        assert(lines.take(i + 1).drop_last() =~= lines.take(i));
        lemma_parse_fails(lines, i + 1);
    }
}

/// Reads the account table. The number of the first line that is no account is
/// returned where there is one.
pub fn load(text: &str) -> (r: Result<Users, usize>)
    ensures
        match r {
            Ok(users) => parsed(pieces(text@, '\n')) == Ok::<
                Seq<(Seq<char>, Seq<char>)>,
                nat,
            >(users@) && by_name(users@),
            Err(n) => parsed(pieces(text@, '\n')) == Err::<Seq<(Seq<char>, Seq<char>)>, nat>(
                n as nat,
            ),
        },
{
    let lines = split_on(&chars_of(text), '\n');
    let ghost all = views(lines@);
    let mut users = Users::new();
    let mut i: usize = 0;
    assert(all.take(0) =~= Seq::<Seq<char>>::empty());
    assert(users@ =~= Seq::<(Seq<char>, Seq<char>)>::empty());
    while i < lines.len()
        invariant
            i <= lines.len(),
            all == views(lines@),
            all == pieces(text@, '\n'),
            by_name(users@),
            parsed(all.take(i as int)) == Ok::<Seq<(Seq<char>, Seq<char>)>, nat>(users@),
        decreases lines.len() - i,
    {
        assert(all.take(i + 1).drop_last() =~= all.take(i as int));
        assert(all.take(i + 1).last() == lines@[i as int]@);
        let line = trim(&lines[i]);
        if line.len() > 0 && line[0] != '#' {
            let mut from: usize = 0;
            if line.len() > 1 && line[0] == ':' && line[1] == '#' && find_colon(&line, 1).is_some() {
                from = 1;
            }
            match find_colon(&line, from) {
                None => {
                    proof {
                        lemma_parse_fails(all, i + 1);
                    }
                    return Err(i + 1);
                },
                Some(c) => {
                    let name = subrange(&line, from, c);
                    let hash = subrange(&line, c + 1, line.len());
                    assert(name@ =~= line@.subrange(from as int, c as int));
                    assert(hash@ =~= line@.skip(c + 1));
                    users.insert(string_of(&name), string_of(&hash));
                },
            }
        }
        i = i + 1;
    }
    assert(all.take(i as int) =~= all);
    Ok(users)
}

/// The first line of an account file.
pub const HEADER: &'static str = "# Telekin accounts: username:argon2-hash\n";

/// The line of an account.
pub open spec fn account_line(a: (Seq<char>, Seq<char>)) -> Seq<char> {
    if a.0.len() > 0 && a.0[0] == '#' {
        seq![':'] + a.0.push(':') + a.1
    } else {
        a.0.push(':') + a.1
    }
}

/// The text of an account file.
pub open spec fn rendered(users: Seq<(Seq<char>, Seq<char>)>) -> Seq<char>
    decreases users.len(),
{
    if users.len() == 0 {
        HEADER@
    } else {
        rendered(users.drop_last()) + account_line(users.last()).push('\n')
    }
}

/// Writes the account table.
pub fn render(users: &Users) -> (r: String)
    ensures
        r@ == rendered(users@),
{
    let mut out = HEADER.to_owned();
    let mut i: usize = 0;
    assert(users@.take(0) =~= Seq::<(Seq<char>, Seq<char>)>::empty());
    while i < users.list.len()
        invariant
            i <= users.list.len(),
            out@ == rendered(users@.take(i as int)),
        decreases users.list.len() - i,
    {
        assert(users@.take(i + 1).drop_last() =~= users@.take(i as int));
        let ghost before = out@;
        let name = chars_of(&users.list[i].name);
        if name.len() > 0 && name[0] == '#' {
            out.push(':');
        }
        out.push_str(&users.list[i].name);
        out.push(':');
        out.push_str(&users.list[i].hash);
        out.push('\n');
        assert(out@ =~= before + account_line(users@[i as int]).push('\n'));
        i = i + 1;
    }
    assert(users@.take(i as int) =~= users@);
    out
}

/// Why an account was not added.
#[derive(Debug, PartialEq, Eq)]
pub enum AddError {
    /// The name is empty or holds a colon or white space.
    BadName,
    /// The password has fewer than 8 characters.
    ShortPassword,
    /// No hash could be made, for this reason.
    Hashing { reason: String },
}

impl AddError {
    /// What is said of it.
    pub fn message(&self) -> (r: String)
        ensures
            r@ == match self {
                AddError::BadName => "a username cannot be empty or contain ':' or spaces"@,
                AddError::ShortPassword => "a password must be at least 8 characters"@,
                AddError::Hashing { reason } => "hashing failed: "@ + reason@,
            },
    {
        match self {
            AddError::BadName => "a username cannot be empty or contain ':' or spaces".to_owned(),
            AddError::ShortPassword => "a password must be at least 8 characters".to_owned(),
            AddError::Hashing { reason } => {
                let mut out = "hashing failed: ".to_owned();
                out.push_str(reason);
                out
            },
        }
    }
}

/// What is said of a line of the account file that is no account.
pub fn not_an_account(file: &str, line: usize) -> (r: String)
    ensures
        r@ == file@ + ":"@ + decimal(line as nat) + " is not `user:hash`"@,
{
    let mut out = file.to_owned();
    out.push_str(":");
    push_decimal(&mut out, line as u64);
    out.push_str(" is not `user:hash`");
    out
}

/// What is said of an account that was added or replaced.
pub fn account_noted(replaced: bool, username: &str, file: &str) -> (r: String)
    ensures
        r@ == (if replaced {
            "Updated"@
        } else {
            "Added"@
        }) + " account "@ + quoted(username@) + " in "@ + file@,
{
    let mut out = if replaced {
        "Updated".to_owned()
    } else {
        "Added".to_owned()
    };
    out.push_str(" account ");
    out.push_str(&quote(username));
    out.push_str(" in ");
    out.push_str(file);
    out
}

/// Whether a name can be written to an account file and read back.
pub open spec fn good_name(name: Seq<char>) -> bool {
    &&& name.len() > 0
    &&& forall|i: int| 0 <= i < name.len() ==> (#[trigger] name[i]) != ':' && !white(name[i])
}

fn is_good_name(v: &Vec<char>) -> (r: bool)
    ensures
        r == good_name(v@),
{
    if v.len() == 0 {
        return false;
    }
    let mut i: usize = 0;
    while i < v.len()
        invariant
            i <= v.len(),
            v.len() > 0,
            forall|j: int| 0 <= j < i ==> (#[trigger] v@[j]) != ':' && !white(v@[j]),
        decreases v.len() - i,
    {
        if v[i] == ':' || is_white(v[i]) {
            return false;
        }
        i = i + 1;
    }
    true
}

/// What is to be said of a name and a password before an account is added.
pub fn check_account(username: &str, password: &str) -> (r: Result<(), AddError>)
    ensures
        r == if !good_name(username@) {
            Err(AddError::BadName)
        } else if password@.len() < 8 {
            Err(AddError::ShortPassword)
        } else {
            Ok::<(), AddError>(())
        },
        r == Err::<(), AddError>(AddError::BadName) <==> username@.len() == 0
            || username@.contains(':') || exists|i: int|
            0 <= i < username@.len() && white(#[trigger] username@[i]),
        r is Ok ==> password@.len() >= 8,
{
    if !is_good_name(&chars_of(username)) {
        return Err(AddError::BadName);
    }
    if chars_of(password).len() < 8 {
        return Err(AddError::ShortPassword);
    }
    Ok(())
}

/// Add or replace an account. Says whether one was replaced.
///
/// A bad name or a short password is refused and changes nothing. Otherwise a hash
/// is made, with a random salt of its own; where that works, the account has it.
pub fn add(users: &mut Users, username: &str, password: &str) -> (r: Result<bool, AddError>)
    requires
        by_name(old(users)@),
    ensures
        by_name(final(users)@),
        r is Err ==> final(users)@ == old(users)@,
        r matches Err(AddError::BadName) <==> !good_name(username@),
        r matches Err(AddError::ShortPassword) <==> good_name(username@) && password@.len() < 8,
        r matches Ok(replaced) ==> {
            &&& replaced == (hash_of(old(users)@, username@) is Some)
            &&& exists|h: Seq<char>|
                #![trigger with_account(old(users)@, username@, h)]
                final(users)@ == with_account(old(users)@, username@, h) && is_hash_of(
                    h,
                    vstd::utf8::encode_utf8(password@),
                ) && good_hash(h)
        },
{
    match check_account(username, password) {
        Err(e) => {
            return Err(e);
        },
        Ok(_) => {},
    }
    let made = make_hash(password.as_bytes());
    assert(made matches Ok(hash) ==> good_hash(hash@));
    enter(users, username, made)
}

/// Gives an account the hash that was made for it, if one was. Says whether an account was
/// replaced.
pub fn enter(users: &mut Users, username: &str, made: Result<String, String>) -> (r: Result<
    bool,
    AddError,
>)
    requires
        by_name(old(users)@),
    ensures
        by_name(final(users)@),
        match made {
            Ok(hash) => {
                &&& r == Ok::<bool, AddError>(hash_of(old(users)@, username@) is Some)
                &&& final(users)@ == with_account(old(users)@, username@, hash@)
            },
            Err(reason) => {
                &&& r == Err::<bool, AddError>(AddError::Hashing { reason })
                &&& final(users)@ == old(users)@
            },
        },
{
    match made {
        Ok(hash) => Ok(users.insert(username.to_owned(), hash)),
        Err(reason) => Err(AddError::Hashing { reason }),
    }
}

/// Whether a hash can be written to an account file and read back.
pub open spec fn good_hash(hash: Seq<char>) -> bool {
    hash.len() > 0 && forall|i: int| 0 <= i < hash.len() ==> !white(#[trigger] hash[i])
}

/// A hash to check against when the user does not exist, so that a missing account
/// costs the same work as a wrong password.
pub const DUMMY: &'static str = "$argon2id$v=19$m=19456,t=2,p=1$c2FsdHNhbHRzYWx0c2E$Kq6ZJKPz6qkqXEbpB0i1B4tPPCT8QjxsQ0YvAzOaKtA";

/// What a check comes to: only a check that succeeded, of an account that exists,
/// lets anyone in.
pub fn verdict(known: bool, checked: Option<bool>) -> (r: bool)
    ensures
        r == (known && checked == Some(true)),
{
    match checked {
        Some(ok) => ok && known,
        None => false,
    }
}

/// What a login comes to: `system` says what the machine's own accounts made of it, and
/// the rest what the account file did.
pub fn admitted(system: bool, known: bool, checked: Option<bool>) -> (r: bool)
    ensures
        r == (system || (known && checked == Some(true))),
{
    system || verdict(known, checked)
}

/// The hash that a login is checked against, and whether it is that of an account: without
/// one, the dummy is checked, so that the work is the same.
pub fn hash_to_check(users: &Users, username: &str) -> (r: (String, bool))
    ensures
        r.1 == (hash_of(users@, username@) is Some),
        r.0@ == match hash_of(users@, username@) {
            Some(h) => h,
            None => DUMMY@,
        },
{
    match users.get(username) {
        Some(h) => (h, true),
        None => (DUMMY.to_owned(), false),
    }
}

/// Check a login against the account file only. False for a wrong password and for
/// an unknown user alike, after the same work.
///
/// A check that could not be made, for want of memory among other reasons, lets nobody in;
/// [`verdict`] says what comes of each answer, and [`hash_to_check`] what is checked.
pub fn verify(users: &Users, username: &str, password: &str) -> (r: bool)
    ensures
        r ==> (hash_of(users@, username@) matches Some(h) && is_hash_of(
            h,
            vstd::utf8::encode_utf8(password@),
        )),
{
    let (hash, known) = hash_to_check(users, username);
    verdict(known, check_hash(&hash, password.as_bytes()))
}

/// Check a login against both sources; `system` says what the machine's own
/// accounts made of it. The file is asked only where they refuse, and [`admitted`] says
/// what comes of its answer.
pub fn authenticate(system: bool, users: &Users, username: &str, password: &str) -> (r: bool)
    ensures
        system ==> r,
        r ==> system || (hash_of(users@, username@) matches Some(h) && is_hash_of(
            h,
            vstd::utf8::encode_utf8(password@),
        )),
{
    let (hash, known) = hash_to_check(users, username);
    let checked = if system {
        None
    } else {
        check_hash(&hash, password.as_bytes())
    };
    admitted(system, known, checked)
}

/// Whether a name may be handed to the helper that checks the machine's own
/// accounts: it is not empty and holds no NUL and no line break.
pub fn system_auth_accepts(username: &str) -> (r: bool)
    ensures
        r == (username@.len() > 0 && !username@.contains('\0') && !username@.contains('\n')),
{
    let v = chars_of(username);
    v.len() > 0 && !holds(&v, '\0') && !holds(&v, '\n')
}

/// What the helper reads: the password and a NUL, without which it would read no
/// password at all.
pub fn system_auth_input(password: &str) -> (r: Vec<u8>)
    ensures
        r@ == vstd::utf8::encode_utf8(password@).push(0),
{
    let bytes = password.as_bytes();
    let mut out: Vec<u8> = Vec::new();
    let mut i: usize = 0;
    while i < bytes.len()
        invariant
            i <= bytes.len(),
            out@ == bytes@.take(i as int),
        decreases bytes.len() - i,
    {
        out.push(bytes[i]);
        i = i + 1;
        assert(bytes@.take(i as int) =~= bytes@.take(i - 1).push(bytes@[i - 1]));
    }
    assert(bytes@.take(i as int) =~= bytes@);
    out.push(0);
    out
}

/// The lines of an account file: the header, then one line for each account.
spec fn lines_of(users: Seq<(Seq<char>, Seq<char>)>) -> Seq<Seq<char>>
    decreases users.len(),
{
    if users.len() == 0 {
        seq![HEADER@.drop_last()]
    } else {
        lines_of(users.drop_last()).push(account_line(users.last()))
    }
}

/// Whether the line of an account is read as that account: it is one line, no comment, with
/// nothing to trim.
pub open spec fn writable(a: (Seq<char>, Seq<char>)) -> bool {
    let line = account_line(a);
    &&& !line.contains('\n')
    &&& trimmed(line) == line
    &&& line.len() > 0
    &&& line[0] != '#'
    &&& account_in(line) == Some(a)
}

/// Every account that may be added can be written.
proof fn lemma_good_is_writable(a: (Seq<char>, Seq<char>))
    requires
        good_name(a.0),
        good_hash(a.1),
    ensures
        writable(a),
{
    let line = account_line(a);
    let from = if a.0[0] == '#' {
        1int
    } else {
        0int
    };
    let at = from + a.0.len();
    assert(line.subrange(from, at) =~= a.0);
    assert(line.skip(at + 1) =~= a.1);
    assert(line[at] == ':');
    assert forall|k: int| 0 <= k < line.len() implies !white(#[trigger] line[k]) by {
        if from <= k < at {
            assert(line[k] == a.0[k - from]);
        } else if k > at {
            assert(line[k] == a.1[k - at - 1]);
        }
    }
    assert(!line.contains('\n')) by {
        if line.contains('\n') {
            let k = choose|k: int| 0 <= k < line.len() && line[k] == '\n';
            assert(white(line[k]));
        }
    }
    assert(!white(line[0]));
    assert(!white(line[line.len() - 1]));
    assert(trimmed_start(line) == line);
    assert forall|k: int| from <= k < at implies line[k] != ':' by {
        assert(line[k] == a.0[k - from]);
    }
    lemma_colon(line, at, from);
    assert(line[from] == a.0[0]);
}

/// Every account that was read can be written.
proof fn lemma_read_is_writable(lines: Seq<Seq<char>>)
    requires
        forall|i: int| 0 <= i < lines.len() ==> !(#[trigger] lines[i]).contains('\n'),
        parsed(lines) is Ok,
    ensures
        by_name(parsed(lines)->Ok_0),
        forall|i: int|
            0 <= i < parsed(lines)->Ok_0.len() ==> writable(#[trigger] parsed(lines)->Ok_0[i]),
    decreases lines.len(),
{
    if lines.len() > 0 {
        let rest = lines.drop_last();
        assert forall|i: int| 0 <= i < rest.len() implies !(#[trigger] rest[i]).contains('\n') by {
            assert(rest[i] == lines[i]);
        }
        lemma_read_is_writable(rest);
        let users = parsed(rest)->Ok_0;
        let line = trimmed(lines.last());
        assert(!lines[lines.len() - 1].contains('\n'));
        trimming_twice_changes_nothing(lines.last());
        if line.len() > 0 && line[0] != '#' {
            let from = name_start(line);
            lemma_first_colon(line, from);
            let i = colon(line, from)->0;
            let a = (line.subrange(from, i), line.skip(i + 1));
            if from == 1 {
                assert(a.0[0] == '#');
                assert(seq![':'] + a.0.push(':') + a.1 =~= line);
            } else {
                assert(a.0.len() > 0 ==> a.0[0] == line[0]);
                assert(a.0.push(':') + a.1 =~= line);
            }
            assert(account_line(a) == line);
            lemma_with_account(users, a.0, a.1);
            let w = with_account(users, a.0, a.1);
            assert forall|k: int| 0 <= k < w.len() implies writable(#[trigger] w[k]) by {
                if w[k] != a {
                    assert(users.contains(w[k]));
                    let m = choose|m: int| 0 <= m < users.len() && users[m] == w[k];
                    assert(writable(users[m]));
                }
            }
        }
    }
}

proof fn lemma_first_colon(s: Seq<char>, from: int)
    requires
        0 <= from <= s.len(),
    ensures
        match colon(s, from) {
            Some(i) => from <= i < s.len() && s[i] == ':' && forall|k: int|
                from <= k < i ==> s[k] != ':',
            None => true,
        },
    decreases s.len() - from,
{
    if from < s.len() && s[from] != ':' {
        lemma_first_colon(s, from + 1);
    }
}

proof fn lemma_header()
    ensures
        HEADER@.len() > 0,
        HEADER@.last() == '\n',
        !HEADER@.drop_last().contains('\n'),
        HEADER@[0] == '#',
        trimmed(HEADER@.drop_last()).len() > 0,
        trimmed(HEADER@.drop_last())[0] == '#',
{
    reveal_strlit("# Telekin accounts: username:argon2-hash\n");
    let h = HEADER@.drop_last();
    assert(h[0] == '#' && h.last() == 'h');
    assert(trimmed_start(h) == h);
    assert(trimmed_end(h) == h);
    assert(!h.contains('\n')) by {
        assert forall|k: int| 0 <= k < h.len() implies h[k] != '\n' by {
            assert(h[k] == HEADER@[k]);
        }
    }
}

proof fn lemma_colon(s: Seq<char>, at: int, from: int)
    requires
        0 <= from <= at < s.len(),
        s[at] == ':',
    ensures
        (forall|k: int| from <= k < at ==> s[k] != ':') ==> colon(s, from) == Some(at),
    decreases at - from,
{
    if from < at {
        lemma_colon(s, at, from + 1);
    }
}

proof fn lemma_rendered_lines(users: Seq<(Seq<char>, Seq<char>)>)
    requires
        forall|i: int| 0 <= i < users.len() ==> writable(#[trigger] users[i]),
    ensures
        pieces(rendered(users), '\n') == lines_of(users).push(Seq::<char>::empty()),
    decreases users.len(),
{
    lemma_header();
    if users.len() == 0 {
        let h = HEADER@.drop_last();
        pieces_of_plain(Seq::<char>::empty(), h, '\n');
        assert(Seq::<char>::empty() + h =~= h);
        assert(pieces(Seq::<char>::empty(), '\n') == seq![Seq::<char>::empty()]);
        assert(pieces(h, '\n') =~= seq![h]);
        assert(HEADER@ =~= h.push('\n'));
        assert(HEADER@.drop_last() =~= h);
        assert(pieces(HEADER@, '\n') =~= seq![h].push(Seq::<char>::empty()));
    } else {
        let rest = users.drop_last();
        let a = users.last();
        assert forall|i: int| 0 <= i < rest.len() implies writable(#[trigger] rest[i]) by {
            assert(rest[i] == users[i]);
        }
        lemma_rendered_lines(rest);
        assert(writable(users[users.len() - 1]));
        let line = account_line(a);
        let r = rendered(rest);
        assert(rendered(users) =~= (r + line).push('\n'));
        pieces_of_plain(r, line, '\n');
        let p = lines_of(rest).push(Seq::<char>::empty());
        assert(p.drop_last() =~= lines_of(rest));
        assert(p.last() + line =~= line);
        assert((r + line).push('\n').drop_last() =~= r + line);
        assert(pieces(rendered(users), '\n') =~= lines_of(users).push(Seq::<char>::empty()));
    }
}

proof fn lemma_parsed_lines(users: Seq<(Seq<char>, Seq<char>)>)
    requires
        by_name(users),
        forall|i: int| 0 <= i < users.len() ==> writable(#[trigger] users[i]),
    ensures
        parsed(lines_of(users)) == Ok::<Seq<(Seq<char>, Seq<char>)>, nat>(users),
    decreases users.len(),
{
    let lines = lines_of(users);
    if users.len() == 0 {
        lemma_header();
        assert(lines.drop_last() =~= Seq::<Seq<char>>::empty());
        assert(parsed(lines.drop_last()) == Ok::<Seq<(Seq<char>, Seq<char>)>, nat>(Seq::empty()));
        assert(users =~= Seq::<(Seq<char>, Seq<char>)>::empty());
    } else {
        let rest = users.drop_last();
        let a = users.last();
        assert forall|i: int| 0 <= i < rest.len() implies writable(#[trigger] rest[i]) by {
            assert(rest[i] == users[i]);
        }
        lemma_parsed_lines(rest);
        assert(writable(users[users.len() - 1]));
        assert(lines.drop_last() =~= lines_of(rest));
        assert(with_account(rest, a.0, a.1) =~= users) by {
            if rest.len() > 0 {
                assert(precedes(users[rest.len() - 1].0, users[users.len() - 1].0));
                precedes_is_asymmetric(rest.last().0, rest.last().0);
            }
        }
    }
}

/// What is written to an account file is what is read from it.
pub proof fn accounts_read_back_as_written(users: Seq<(Seq<char>, Seq<char>)>)
    requires
        by_name(users),
        forall|i: int| 0 <= i < users.len() ==> writable(#[trigger] users[i]),
    ensures
        parsed(pieces(rendered(users), '\n')) == Ok::<Seq<(Seq<char>, Seq<char>)>, nat>(users),
{
    lemma_rendered_lines(users);
    lemma_parsed_lines(users);
    let lines = lines_of(users).push(Seq::<char>::empty());
    assert(lines.drop_last() =~= lines_of(users));
    assert(trimmed(Seq::<char>::empty()).len() == 0);
}

/// Whatever an account file held, an account that is added to it is there when the file is
/// read again, and so is every other: the table that is written is the one that is read.
pub proof fn an_added_account_reads_back(
    file: Seq<char>,
    users: Seq<(Seq<char>, Seq<char>)>,
    name: Seq<char>,
    hash: Seq<char>,
    other: Seq<char>,
)
    requires
        parsed(pieces(file, '\n')) == Ok::<Seq<(Seq<char>, Seq<char>)>, nat>(users),
        good_name(name),
        good_hash(hash),
    ensures
        ({
            let after = with_account(users, name, hash);
            &&& parsed(pieces(rendered(after), '\n')) == Ok::<Seq<(Seq<char>, Seq<char>)>, nat>(after)
            &&& hash_of(after, name) == Some(hash)
            &&& other != name ==> hash_of(after, other) == hash_of(users, other)
        }),
{
    pieces_hold_no_separator(file, '\n');
    lemma_read_is_writable(pieces(file, '\n'));
    lemma_good_is_writable((name, hash));
    lemma_with_account(users, name, hash);
    adding_keeps_the_other_accounts(users, name, hash, other);
    let after = with_account(users, name, hash);
    assert forall|k: int| 0 <= k < after.len() implies writable(#[trigger] after[k]) by {
        if after[k] != (name, hash) {
            assert(users.contains(after[k]));
            let m = choose|m: int| 0 <= m < users.len() && users[m] == after[k];
            assert(writable(users[m]));
        }
    }
    accounts_read_back_as_written(after);
}

/// An account has a hash exactly if it is listed with it.
pub proof fn an_account_is_found_by_its_name(
    users: Seq<(Seq<char>, Seq<char>)>,
    name: Seq<char>,
    hash: Seq<char>,
)
    requires
        by_name(users),
    ensures
        hash_of(users, name) == Some(hash) <==> users.contains((name, hash)),
    decreases users.len(),
{
    if users.len() > 0 {
        let front = users.drop_last();
        an_account_is_found_by_its_name(front, name, hash);
        assert(users.last() == users[users.len() - 1]);
        if front.contains((name, hash)) {
            let i = choose|i: int| 0 <= i < front.len() && front[i] == (name, hash);
            assert(users[i] == (name, hash));
            if users.last().0 == name {
                precedes_is_asymmetric(name, name);
                assert(precedes(users[i].0, users[users.len() - 1].0));
            }
        }
        if users.contains((name, hash)) {
            let i = choose|i: int| 0 <= i < users.len() && users[i] == (name, hash);
            if i < front.len() {
                assert(front[i] == (name, hash));
            }
        }
    }
}

/// A line of an account file that is empty or a comment changes nothing, and one with a name, a
/// colon and a hash gives that account that hash, whatever an earlier line gave it.
pub proof fn every_line_counts_for_itself(
    front: Seq<Seq<char>>,
    users: Seq<(Seq<char>, Seq<char>)>,
    comment: Seq<char>,
    name: Seq<char>,
    hash: Seq<char>,
)
    requires
        parsed(front) == Ok::<Seq<(Seq<char>, Seq<char>)>, nat>(users),
        trimmed(comment).len() == 0 || trimmed(comment)[0] == '#',
        good_name(name),
        name[0] != '#',
        good_hash(hash),
    ensures
        parsed(front.push(comment)) == Ok::<Seq<(Seq<char>, Seq<char>)>, nat>(users),
        parsed(front.push(name + seq![':'] + hash)) == Ok::<Seq<(Seq<char>, Seq<char>)>, nat>(
            with_account(users, name, hash),
        ),
{
    assert(front.push(comment).drop_last() =~= front);
    let line = name + seq![':'] + hash;
    assert(front.push(line).drop_last() =~= front);
    assert(name.push(':') + hash =~= line);
    lemma_good_is_writable((name, hash));
}

/// The first line that is no account is the one that is named, counted from one, whatever
/// follows it.
pub proof fn the_first_bad_line_is_named(
    front: Seq<Seq<char>>,
    bad: Seq<char>,
    rest: Seq<Seq<char>>,
)
    requires
        parsed(front) is Ok,
        trimmed(bad).len() > 0,
        trimmed(bad)[0] != '#',
        !trimmed(bad).contains(':'),
    ensures
        parsed(front.push(bad) + rest) == Err::<Seq<(Seq<char>, Seq<char>)>, nat>(front.len() + 1),
{
    let line = trimmed(bad);
    let lines = front.push(bad) + rest;
    let upto = front.push(bad);
    assert(lines.take(front.len() as int + 1) =~= upto);
    assert(upto.drop_last() =~= front);
    lemma_first_colon(line, 0);
    if let Some(i) = colon(line, 0) {
        assert(line.contains(line[i]));
    }
    assert(line.contains(line[0]));
    lemma_parse_fails(lines, front.len() as int + 1);
}

} // verus!
