//! Users, their collections, and credential checks.
use vstd::prelude::*;

verus! {

/// A collection a user owns.
pub struct Database {
    pub namedb: String,
}

/// A user: name, password hash and collections.
pub struct User {
    pub user: String,
    pub password: String,
    pub db: Vec<Database>,
}

/// A request to create a user.
pub struct CreateUserRequest {
    pub username: String,
    pub password: String,
}

/// A request to create a collection.
pub struct CreateDbRequest {
    pub username: String,
    pub password: String,
    pub db_name: String,
}

#[verifier::external_type_specification]
#[verifier::external_body]
pub struct ExBcryptError(bcrypt::BcryptError);

/// What bcrypt's verification says of `password` against `hash`: whether
/// they match, or nothing when `hash` is not a usable bcrypt hash.
pub uninterp spec fn bcrypt_verdict(password: Seq<char>, hash: Seq<char>) -> Option<bool>;

/// Relies on `bcrypt::verify`: a deterministic check of the password
/// against the hash, failing on malformed hashes.
#[verifier::external_body]
fn verify_password(password: &str, hash: &str) -> (r: Result<bool, bcrypt::BcryptError>)
    ensures
        match r {
            Ok(b) => bcrypt_verdict(password@, hash@) == Some(b),
            Err(_) => bcrypt_verdict(password@, hash@) is None,
        },
{
    bcrypt::verify(password, hash)
}

/// Relies on `bcrypt::hash` at `bcrypt::DEFAULT_COST`: a hash of the
/// password with a random salt.
#[verifier::external_body]
fn hash_password(password: &str) -> (r: Result<String, bcrypt::BcryptError>) {
    bcrypt::hash(password.as_bytes(), bcrypt::DEFAULT_COST)
}

/// Relies on the `Display` of `bcrypt::BcryptError`: its message.
#[verifier::external_body]
fn bcrypt_error_message(e: &bcrypt::BcryptError) -> (r: String) {
    e.to_string()
}

/// A name of a user or collection: not empty, with no space, slash or
/// backslash.
pub open spec fn valid_name(s: Seq<char>) -> bool {
    &&& s.len() > 0
    &&& forall|i: int| 0 <= i < s.len() ==> #[trigger] s[i] != ' ' && s[i] != '/' && s[i] != '\\'
}

/// The outcome is an error with message `msg`.
pub open spec fn fails_with<T>(r: Result<T, String>, msg: Seq<char>) -> bool {
    r matches Err(e) && e@ == msg
}

/// Index of the first user named `name`, or -1.
pub open spec fn find_user(users: Seq<User>, name: Seq<char>) -> int
    decreases users.len(),
{
    if users.len() == 0 {
        -1
    } else if find_user(users.drop_last(), name) >= 0 {
        find_user(users.drop_last(), name)
    } else if users.last().user@ == name {
        users.len() - 1
    } else {
        -1
    }
}

/// The user owns a collection named `db`.
pub open spec fn owns(u: User, db: Seq<char>) -> bool {
    exists|i: int| 0 <= i < u.db.len() && #[trigger] u.db@[i].namedb@ == db
}

/// What authentication of `name` with `password` gives: no such user is a
/// plain refusal; otherwise bcrypt's verdict on the stored hash.
pub open spec fn auth_verdict(users: Seq<User>, name: Seq<char>, password: Seq<char>) -> Option<bool> {
    let i = find_user(users, name);
    if i < 0 {
        Some(false)
    } else {
        bcrypt_verdict(password, users[i].password@)
    }
}

/// `find_user` gives the first index with the name.
pub proof fn lemma_find_user(users: Seq<User>, name: Seq<char>)
    ensures
        -1 <= find_user(users, name) < users.len(),
        find_user(users, name) >= 0 ==> users[find_user(users, name)].user@ == name,
        forall|j: int|
            0 <= j < users.len() && (find_user(users, name) < 0 || j < find_user(users, name)) ==> (
            #[trigger] users[j]).user@ != name,
    decreases users.len(),
{
    if users.len() > 0 {
        lemma_find_user(users.drop_last(), name);
        assert forall|j: int|
            0 <= j < users.len() && (find_user(users, name) < 0 || j < find_user(users, name)) implies (
            #[trigger] users[j]).user@ != name by {
            if j < users.len() - 1 {
                assert(users.drop_last()[j] == users[j]);
            }
        }
    }
}

/// Whether `s` is a valid name.
pub fn name_is_valid(s: &str) -> (r: bool)
    ensures
        r == valid_name(s@),
{
    let n = s.unicode_len();
    if n == 0 {
        return false;
    }
    let mut i: usize = 0;
    while i < n
        invariant
            n == s@.len(),
            i <= n,
            forall|k: int| 0 <= k < i ==> #[trigger] s@[k] != ' ' && s@[k] != '/' && s@[k] != '\\',
        decreases n - i,
    {
        let c = s.get_char(i);
        if c == ' ' || c == '/' || c == '\\' {
            return false;
        }
        i = i + 1;
    }
    true
}

/// The users, as loaded from their store.
pub struct AuthService {
    pub users: Vec<User>,
}

impl AuthService {
    /// A service with no users.
    pub fn new() -> (r: AuthService)
        ensures
            r.users@ == Seq::<User>::empty(),
    {
        AuthService { users: Vec::new() }
    }

    /// A service over the given users.
    pub fn with_users(users: Vec<User>) -> (r: AuthService)
        ensures
            r.users@ == users@,
    {
        AuthService { users }
    }

    /// Index of the first user named `username`.
    fn find(&self, username: &str) -> (r: Option<usize>)
        ensures
            find_user(self.users@, username@) == match r {
                Some(i) => i as int,
                None => -1,
            },
            r matches Some(i) ==> i < self.users.len(),
    {
        proof {
            lemma_find_user(self.users@, username@);
        }
        let wanted = String::from_str(username);
        let mut i: usize = 0;
        while i < self.users.len()
            invariant
                i <= self.users.len(),
                wanted@ == username@,
                -1 <= find_user(self.users@, username@) < self.users.len(),
                find_user(self.users@, username@) >= 0 ==> self.users@[find_user(self.users@, username@)].user@ == username@,
                forall|j: int|
                    0 <= j < self.users.len() && (find_user(self.users@, username@) < 0 || j < find_user(self.users@, username@)) ==> (
                    #[trigger] self.users@[j]).user@ != username@,
                forall|j: int| 0 <= j < i ==> (#[trigger] self.users@[j]).user@ != username@,
            decreases self.users.len() - i,
        {
            if self.users[i].user.eq(&wanted) {
                return Some(i);
            }
            i = i + 1;
        }
        None
    }

    /// Checks `password` against the stored hash of user `username`: no such
    /// user gives `Ok(false)`; a malformed stored hash an error.
    pub fn authenticate(&self, username: &str, password: &str) -> (r: Result<bool, String>)
        ensures
            match auth_verdict(self.users@, username@, password@) {
                Some(b) => r == Ok::<bool, String>(b),
                None => r is Err,
            },
    {
        match self.find(username) {
            Some(i) => match verify_password(password, self.users[i].password.as_str()) {
                Ok(b) => Ok(b),
                Err(e) => Err(bcrypt_error_message(&e)),
            },
            None => Ok(false),
        }
    }

    /// Whether user `username`, authenticated with `password`, owns a
    /// collection named `db_name`.
    pub fn user_has_database(&self, username: &str, password: &str, db_name: &str) -> (r: Result<bool, String>)
        ensures
            match auth_verdict(self.users@, username@, password@) {
                Some(true) => r == Ok::<bool, String>(owns(self.users@[find_user(self.users@, username@)], db_name@)),
                _ => r is Err,
            },
    {
        match self.authenticate(username, password) {
            Err(e) => Err(e),
            Ok(false) => Err(String::from_str("Invalid credentials")),
            Ok(true) => match self.find(username) {
                Some(i) => {
                    let wanted = String::from_str(db_name);
                    let dbs = &self.users[i].db;
                    let mut k: usize = 0;
                    while k < dbs.len()
                        invariant
                            k <= dbs.len(),
                            wanted@ == db_name@,
                            auth_verdict(self.users@, username@, password@) == Some(true),
                            find_user(self.users@, username@) == i,
                            i < self.users.len(),
                            dbs == &self.users@[i as int].db,
                            forall|j: int| 0 <= j < k ==> (#[trigger] dbs@[j]).namedb@ != db_name@,
                        decreases dbs.len() - k,
                    {
                        if dbs[k].namedb.eq(&wanted) {
                            assert(dbs@[k as int].namedb@ == db_name@);
                            return Ok(true);
                        }
                        k = k + 1;
                    }
                    Ok(false)
                },
                None => Err(String::from_str("User not found")),
            },
        }
    }

    /// The collections of user `username`, authenticated with `password`.
    pub fn get_user_databases(&self, username: &str, password: &str) -> (r: Result<Vec<Database>, String>)
        ensures
            match auth_verdict(self.users@, username@, password@) {
                Some(true) => r matches Ok(dbs) && dbs.len() == self.users@[find_user(self.users@, username@)].db.len()
                    && forall|j: int| 0 <= j < dbs.len() ==> (#[trigger] dbs@[j]).namedb@
                        == self.users@[find_user(self.users@, username@)].db@[j].namedb@,
                _ => r is Err,
            },
    {
        match self.authenticate(username, password) {
            Err(e) => Err(e),
            Ok(false) => Err(String::from_str("Invalid credentials")),
            Ok(true) => match self.find(username) {
                Some(i) => {
                    let src = &self.users[i].db;
                    let mut out: Vec<Database> = Vec::new();
                    let mut k: usize = 0;
                    while k < src.len()
                        invariant
                            k <= src.len(),
                            auth_verdict(self.users@, username@, password@) == Some(true),
                            find_user(self.users@, username@) == i,
                            i < self.users.len(),
                            src == &self.users@[i as int].db,
                            out.len() == k,
                            forall|j: int| 0 <= j < k ==> (#[trigger] out@[j]).namedb@ == src@[j].namedb@,
                        decreases src.len() - k,
                    {
                        out.push(Database { namedb: src[k].namedb.clone() });
                        k = k + 1;
                    }
                    Ok(out)
                },
                None => Err(String::from_str("User not found")),
            },
        }
    }

    /// Registers user `request.username` with a hash of `request.password`
    /// and no collections. Refused when the name is taken or invalid, or
    /// when hashing fails.
    pub fn create_user(&mut self, request: CreateUserRequest) -> (r: Result<String, String>)
        ensures
            find_user(old(self).users@, request.username@) >= 0 ==> fails_with(r, "User already exists"@),
            find_user(old(self).users@, request.username@) < 0 && !valid_name(request.username@) ==> fails_with(r, "Invalid username. Cannot contain spaces or special characters"@),
            r is Err ==> final(self).users@ == old(self).users@,
            r matches Ok(m) ==> {
                &&& find_user(old(self).users@, request.username@) < 0
                &&& valid_name(request.username@)
                &&& final(self).users@.len() == old(self).users@.len() + 1
                &&& final(self).users@.drop_last() == old(self).users@
                &&& final(self).users@.last().user@ == request.username@
                &&& final(self).users@.last().db.len() == 0
                &&& m@ == "User '"@ + request.username@ + "' created successfully with folder at: users/"@ + request.username@
            },
    {
        if self.find(request.username.as_str()).is_some() {
            return Err(String::from_str("User already exists"));
        }
        if !name_is_valid(request.username.as_str()) {
            return Err(String::from_str("Invalid username. Cannot contain spaces or special characters"));
        }
        let hash = match hash_password(request.password.as_str()) {
            Ok(h) => h,
            Err(e) => {
                return Err(bcrypt_error_message(&e));
            },
        };
        let mut message = String::from_str("User '");
        message.append(request.username.as_str());
        message.append("' created successfully with folder at: users/");
        message.append(request.username.as_str());
        let ghost before = self.users@;
        self.users.push(User { user: request.username, password: hash, db: Vec::new() });
        proof {
            assert(self.users@.drop_last() =~= before);
        }
        Ok(message)
    }

    /// Adds collection `request.db_name` to user `request.username`,
    /// authenticated with `request.password`. `file_exists` tells whether
    /// the collection's file is already there. Refused, in this order, on
    /// failed authentication, an invalid name, an unknown user, a
    /// collection of that name, or an existing file.
    pub fn create_database(&mut self, request: CreateDbRequest, file_exists: bool) -> (r: Result<String, String>)
        ensures
            ({
                let users = old(self).users@;
                let i = find_user(users, request.username@);
                let ok = {
                    &&& auth_verdict(users, request.username@, request.password@) == Some(true)
                    &&& valid_name(request.db_name@)
                    &&& i >= 0
                    &&& !owns(users[i], request.db_name@)
                    &&& !file_exists
                };
                &&& (r is Ok <==> ok)
                &&& (auth_verdict(users, request.username@, request.password@) == Some(false) ==> fails_with(r, "Invalid credentials"@))
                &&& (auth_verdict(users, request.username@, request.password@) == Some(true) && !valid_name(
                    request.db_name@,
                ) ==> fails_with(r, "Invalid database name. Cannot contain spaces or special characters"@))
                &&& (auth_verdict(users, request.username@, request.password@) == Some(true) && valid_name(
                    request.db_name@,
                ) && owns(users[i], request.db_name@) ==> fails_with(r, "Database already exists for this user"@))
                &&& (r is Err ==> final(self).users@ == users)
                &&& (r matches Ok(m) ==> {
                    &&& final(self).users@.len() == users.len()
                    &&& forall|j: int| 0 <= j < users.len() && j != i ==> #[trigger] final(self).users@[j] == users[j]
                    &&& final(self).users@[i].user == users[i].user
                    &&& final(self).users@[i].password == users[i].password
                    &&& final(self).users@[i].db@.drop_last() == users[i].db@
                    &&& final(self).users@[i].db@.last().namedb@ == request.db_name@
                    &&& m@ == "Database '"@ + request.db_name@ + "' created successfully at: users/"@
                        + request.username@ + "/"@ + request.db_name@ + ".json"@
                })
            }),
    {
        match self.authenticate(request.username.as_str(), request.password.as_str()) {
            Err(e) => {
                return Err(e);
            },
            Ok(false) => {
                return Err(String::from_str("Invalid credentials"));
            },
            Ok(true) => {},
        }
        if !name_is_valid(request.db_name.as_str()) {
            return Err(String::from_str("Invalid database name. Cannot contain spaces or special characters"));
        }
        let i = match self.find(request.username.as_str()) {
            Some(i) => i,
            None => {
                return Err(String::from_str("User not found"));
            },
        };
        let owned = {
            let wanted = String::from_str(request.db_name.as_str());
            let dbs = &self.users[i].db;
            let mut found = false;
            let mut k: usize = 0;
            while k < dbs.len()
                invariant
                    k <= dbs.len(),
                    wanted@ == request.db_name@,
                    found == exists|j: int| 0 <= j < k && #[trigger] dbs@[j].namedb@ == request.db_name@,
                decreases dbs.len() - k,
            {
                if dbs[k].namedb.eq(&wanted) {
                    found = true;
                }
                k = k + 1;
            }
            found
        };
        if owned {
            return Err(String::from_str("Database already exists for this user"));
        }
        if file_exists {
            return Err(String::from_str("File with that name already exists in user folder"));
        }
        let mut message = String::from_str("Database '");
        message.append(request.db_name.as_str());
        message.append("' created successfully at: users/");
        message.append(request.username.as_str());
        message.append("/");
        message.append(request.db_name.as_str());
        message.append(".json");
        let ghost before = self.users@;
        let mut u = self.users.remove(i);
        let ghost old_db = u.db@;
        u.db.push(Database { namedb: request.db_name });
        self.users.insert(i, u);
        proof {
            assert(self.users@[i as int].db@.drop_last() =~= old_db);
            assert forall|j: int| 0 <= j < before.len() && j != i implies #[trigger] self.users@[j] == before[j] by {
                if j < i {
                    assert(self.users@[j] == before.remove(i as int)[j]);
                } else {
                    assert(self.users@[j] == before.remove(i as int)[j - 1]);
                }
            }
        }
        Ok(message)
    }
}

} // verus!
