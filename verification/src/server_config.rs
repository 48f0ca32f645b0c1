//! The list of monitored servers read from the configuration file, and the
//! credential check that maps a username and password to a server entry.
use vstd::prelude::*;

verus! {

/// The whole configuration: the servers in the order of the file.
#[derive(Clone, Debug)]
pub struct ServerConfigJSON {
    pub servers: Vec<ServerConfig>,
}

/// One monitored server and the credentials its agent logs in with.
#[derive(Clone, Debug)]
pub struct ServerConfig {
    pub username: String,
    pub name: String,
    pub server_type: String,
    pub host: String,
    pub location: String,
    pub password: String,
}

/// A server entry as it is published to browsers: the password is read
/// from the file with the rest but is never written out.
#[derive(Clone, Debug)]
pub struct ServerConfigWithoutPassword {
    pub username: String,
    pub name: String,
    pub server_type: String,
    pub host: String,
    pub location: String,
    pub password: String,
}

/// The published configuration: the servers in the order of the file.
#[derive(Clone, Debug)]
pub struct ServerConfigJSONWithoutPassword {
    pub servers: Vec<ServerConfigWithoutPassword>,
}

impl ServerConfig {
    /// This entry's username and password are exactly `username` and `password`.
    pub open spec fn accepts(&self, username: Seq<char>, password: Seq<char>) -> bool {
        self.username@ == username && self.password@ == password
    }
}

/// The first entry, from position `i` on, whose credentials are
/// `username` and `password`.
pub open spec fn login_index_from(
    servers: Seq<ServerConfig>,
    username: Seq<char>,
    password: Seq<char>,
    i: int,
) -> Option<int>
    decreases servers.len() - i,
{
    if i < 0 || i >= servers.len() {
        None
    } else if servers[i].accepts(username, password) {
        Some(i)
    } else {
        login_index_from(servers, username, password, i + 1)
    }
}

/// The first entry of `servers` whose credentials are `username` and `password`.
pub open spec fn login_index(servers: Seq<ServerConfig>, username: Seq<char>, password: Seq<char>) -> Option<int> {
    login_index_from(servers, username, password, 0)
}

/// `login_index_from` finds the least matching position from `i` on, and
/// `None` means that no entry from `i` on matches.
pub proof fn lemma_login_index_from(
    servers: Seq<ServerConfig>,
    username: Seq<char>,
    password: Seq<char>,
    i: int,
)
    requires
        0 <= i,
    ensures
        login_index_from(servers, username, password, i) matches Some(k) ==> {
            &&& i <= k < servers.len()
            &&& servers[k].accepts(username, password)
            &&& forall|j: int| i <= j < k ==> !servers[j].accepts(username, password)
        },
        login_index_from(servers, username, password, i) is None ==> forall|j: int|
            i <= j < servers.len() ==> !servers[j].accepts(username, password),
    decreases servers.len() - i,
{
    if i < servers.len() && !servers[i].accepts(username, password) {
        lemma_login_index_from(servers, username, password, i + 1);
    }
}

/// A login finds the first entry whose username and password are both the
/// given ones; an entry matching in only one of them is never found.
pub proof fn law_login_needs_username_and_password(
    servers: Seq<ServerConfig>,
    username: Seq<char>,
    password: Seq<char>,
)
    ensures
        login_index(servers, username, password) matches Some(i) ==> {
            &&& 0 <= i < servers.len()
            &&& servers[i].username@ == username
            &&& servers[i].password@ == password
            &&& forall|j: int|
                0 <= j < i ==> !(servers[j].username@ == username && servers[j].password@ == password)
        },
        login_index(servers, username, password) is None <==> forall|j: int|
            0 <= j < servers.len() ==> !(servers[j].username@ == username && servers[j].password@
                == password),
{
    lemma_login_index_from(servers, username, password, 0);
    if let Some(i) = login_index(servers, username, password) {
        assert(servers[i].username@ == username && servers[i].password@ == password);
    }
}

impl ServerConfigJSON {
    /// The index of the first server whose username and password are the
    /// given ones, or `None` when no server has them.
    pub fn check_name_pass(&self, username: &str, password: &str) -> (r: Option<usize>)
        ensures
            match r {
                Some(i) => login_index(self.servers@, username@, password@) == Some(i as int),
                None => login_index(self.servers@, username@, password@) is None,
            },
            r matches Some(i) ==> {
                &&& i < self.servers@.len()
                &&& self.servers@[i as int].accepts(username@, password@)
                &&& forall|j: int| 0 <= j < i ==> !self.servers@[j].accepts(username@, password@)
            },
            r is None ==> forall|j: int|
                0 <= j < self.servers@.len() ==> !self.servers@[j].accepts(username@, password@),
    {
        let wanted_user: String = username.to_owned();
        let wanted_pass: String = password.to_owned();
        let n = self.servers.len();
        let mut index: usize = 0;
        while index < n
            invariant
                n == self.servers@.len(),
                index <= n,
                wanted_user@ == username@,
                wanted_pass@ == password@,
                login_index(self.servers@, username@, password@) == login_index_from(
                    self.servers@,
                    username@,
                    password@,
                    index as int,
                ),
            decreases n - index,
        {
            let s = &self.servers[index];
            if s.username == wanted_user && s.password == wanted_pass {
                proof {
                    lemma_login_index_from(self.servers@, username@, password@, 0);
                }
                return Some(index);
            }
            index = index + 1;
        }
        proof {
            lemma_login_index_from(self.servers@, username@, password@, 0);
        }
        None
    }
}

} // verus!
