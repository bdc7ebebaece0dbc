use vstd::prelude::*;
use vstd::string::*;
use crate::text::{decimal, i64_text, u64_text};

verus! {

#[verifier::external_type_specification]
#[verifier::external_body]
pub struct ExClient(redis::Client);

#[verifier::external_type_specification]
#[verifier::external_body]
pub struct ExClusterClient(redis::cluster::ClusterClient);

#[verifier::external_type_specification]
#[verifier::external_body]
pub struct ExConnection(redis::Connection);

#[verifier::external_type_specification]
#[verifier::external_body]
#[verifier::reject_recursive_types(C)]
pub struct ExClusterConnection<C>(redis::cluster::ClusterConnection<C>);

#[verifier::external_type_specification]
#[verifier::external_body]
pub struct ExRedisError(redis::RedisError);

#[verifier::external_type_specification]
#[verifier::external_body]
pub struct ExPipeline(redis::Pipeline);

#[verifier::external_type_specification]
#[verifier::external_body]
pub struct ExPubSub<'a>(redis::PubSub<'a>);

pub assume_specification[ redis::Client::get_connection ](
    client: &redis::Client,
) -> Result<redis::Connection, redis::RedisError>;

pub assume_specification[ redis::cluster::ClusterClient::get_connection ](
    client: &redis::cluster::ClusterClient,
) -> Result<redis::cluster::ClusterConnection, redis::RedisError>;

pub assume_specification[ redis::Connection::as_pubsub ](
    conn: &mut redis::Connection,
) -> redis::PubSub<'_>;

/// The commands that a pipeline holds, each as its words, in the order they were added.
pub uninterp spec fn queued_commands(p: redis::Pipeline) -> Seq<Seq<Seq<char>>>;

/// Whether a pipeline runs its commands as one MULTI/EXEC transaction.
pub uninterp spec fn pipeline_atomic(p: redis::Pipeline) -> bool;

/// The commands that the store has run for this connection, each as its
/// words, in order; a transaction counts as MULTI, its commands, then EXEC.
pub uninterp spec fn sent(c: RedisConn) -> Seq<Seq<Seq<char>>>;

/// What running a pipeline sends: its commands, wrapped in MULTI and EXEC
/// when it is atomic and not empty.
pub open spec fn pipeline_run_words(p: redis::Pipeline) -> Seq<Seq<Seq<char>>> {
    if pipeline_atomic(p) && queued_commands(p).len() > 0 {
        seq![seq!["MULTI"@]] + queued_commands(p) + seq![seq!["EXEC"@]]
    } else {
        queued_commands(p)
    }
}

/// What running `ops` as one transaction sends.
pub open spec fn transaction_words(ops: Seq<StoreCommand>) -> Seq<Seq<Seq<char>>> {
    if ops.len() > 0 {
        seq![seq!["MULTI"@]] + ops.map_values(|c: StoreCommand| command_words(c)) + seq![
            seq!["EXEC"@],
        ]
    } else {
        Seq::empty()
    }
}

/// A client of the shared store, on a single node or on a cluster. A cluster
/// client also keeps a client of one of its nodes, for subscriptions: the
/// cluster hands every published message to every node.
pub enum RedisConnection {
    Single(redis::Client),
    Cluster(redis::cluster::ClusterClient, redis::Client),
}

/// An open connection to the shared store; on a cluster, with a connection
/// to one node for subscriptions.
pub enum RedisConn {
    Single(redis::Connection),
    Cluster(redis::cluster::ClusterConnection, redis::Connection),
}

/// One command to the store.
#[derive(Clone, Debug, PartialEq, Eq)]
pub enum StoreCommand {
    SetKey(String, String),
    /// Key, value, and seconds until the key expires.
    SetEx(String, String, u64),
    Get(String),
    Del(String),
    Exists(String),
    SetNx(String, String),
    Expire(String, i64),
    IncrBy(String, i64),
    /// Channel and message.
    Publish(String, String),
}

pub open spec fn text_views(v: Seq<String>) -> Seq<Seq<char>> {
    v.map_values(|s: String| s@)
}

/// The words in which a command goes to the store.
pub open spec fn command_words(c: StoreCommand) -> Seq<Seq<char>> {
    match c {
        StoreCommand::SetKey(k, v) => seq!["SET"@, k@, v@],
        StoreCommand::SetEx(k, v, s) => seq!["SETEX"@, k@, decimal(s as int), v@],
        StoreCommand::Get(k) => seq!["GET"@, k@],
        StoreCommand::Del(k) => seq!["DEL"@, k@],
        StoreCommand::Exists(k) => seq!["EXISTS"@, k@],
        StoreCommand::SetNx(k, v) => seq!["SETNX"@, k@, v@],
        StoreCommand::Expire(k, s) => seq!["EXPIRE"@, k@, decimal(s as int)],
        StoreCommand::IncrBy(k, n) => seq!["INCRBY"@, k@, decimal(n as int)],
        StoreCommand::Publish(c, m) => seq!["PUBLISH"@, c@, m@],
    }
}

fn words2(a: &str, b: &String) -> (r: Vec<String>)
    ensures
        text_views(r@) == seq![a@, b@],
{
    let mut out = Vec::new();
    out.push(a.to_owned());
    out.push(b.clone());
    proof {
        assert(text_views(out@) =~= seq![a@, b@]);
    }
    out
}

fn words3(a: &str, b: &String, c: String) -> (r: Vec<String>)
    ensures
        text_views(r@) == seq![a@, b@, c@],
{
    let mut out = Vec::new();
    out.push(a.to_owned());
    out.push(b.clone());
    out.push(c);
    proof {
        assert(text_views(out@) =~= seq![a@, b@, c@]);
    }
    out
}

impl StoreCommand {
    /// The command's name followed by its arguments, numbers in decimal.
    pub fn words(&self) -> (r: Vec<String>)
        ensures
            text_views(r@) == command_words(*self),
    {
        match self {
            StoreCommand::SetKey(k, v) => words3("SET", k, v.clone()),
            StoreCommand::SetEx(k, v, s) => {
                let secs = u64_text(*s);
                let mut out = Vec::new();
                out.push("SETEX".to_owned());
                out.push(k.clone());
                out.push(secs);
                out.push(v.clone());
                proof {
                    assert(text_views(out@) =~= seq!["SETEX"@, k@, decimal(*s as int), v@]);
                }
                out
            },
            StoreCommand::Get(k) => words2("GET", k),
            StoreCommand::Del(k) => words2("DEL", k),
            StoreCommand::Exists(k) => words2("EXISTS", k),
            StoreCommand::SetNx(k, v) => words3("SETNX", k, v.clone()),
            StoreCommand::Expire(k, s) => words3("EXPIRE", k, i64_text(*s)),
            StoreCommand::IncrBy(k, n) => words3("INCRBY", k, i64_text(*n)),
            StoreCommand::Publish(c, m) => words3("PUBLISH", c, m.clone()),
        }
    }
}

/// Relies on `redis::Cmd::query`: sends the words as one command and reads a
/// reply that carries nothing.
#[verifier::external_body]
fn query_unit(conn: &mut RedisConn, words: &Vec<String>) -> (r: Result<(), redis::RedisError>)
    ensures
        r is Ok ==> sent(*final(conn)) == sent(*old(conn)).push(text_views(words@)),
{
    let mut c = redis::Cmd::new();
    c.arg(words);
    match conn {
        RedisConn::Single(x) => c.query(x),
        RedisConn::Cluster(x, _) => c.query(x),
    }
}

/// Relies on `redis::Cmd::query`: sends the words as one command and reads a
/// text reply, `None` for a nil reply.
#[verifier::external_body]
fn query_text(conn: &mut RedisConn, words: &Vec<String>) -> (r: Result<
    Option<String>,
    redis::RedisError,
>)
    ensures
        r is Ok ==> sent(*final(conn)) == sent(*old(conn)).push(text_views(words@)),
{
    let mut c = redis::Cmd::new();
    c.arg(words);
    match conn {
        RedisConn::Single(x) => c.query(x),
        RedisConn::Cluster(x, _) => c.query(x),
    }
}

/// Relies on `redis::Cmd::query`: sends the words as one command and reads an integer reply.
#[verifier::external_body]
fn query_i64(conn: &mut RedisConn, words: &Vec<String>) -> (r: Result<i64, redis::RedisError>)
    ensures
        r is Ok ==> sent(*final(conn)) == sent(*old(conn)).push(text_views(words@)),
{
    let mut c = redis::Cmd::new();
    c.arg(words);
    match conn {
        RedisConn::Single(x) => c.query(x),
        RedisConn::Cluster(x, _) => c.query(x),
    }
}

/// Relies on `redis::Cmd::query`: sends the words as one command and reads an
/// integer reply that fits in 32 bits.
#[verifier::external_body]
fn query_i32(conn: &mut RedisConn, words: &Vec<String>) -> (r: Result<i32, redis::RedisError>)
    ensures
        r is Ok ==> sent(*final(conn)) == sent(*old(conn)).push(text_views(words@)),
{
    let mut c = redis::Cmd::new();
    c.arg(words);
    match conn {
        RedisConn::Single(x) => c.query(x),
        RedisConn::Cluster(x, _) => c.query(x),
    }
}

/// Relies on `redis::Cmd::query`: sends the words as one command and reads a
/// reply as a truth value.
#[verifier::external_body]
fn query_bool(conn: &mut RedisConn, words: &Vec<String>) -> (r: Result<bool, redis::RedisError>)
    ensures
        r is Ok ==> sent(*final(conn)) == sent(*old(conn)).push(text_views(words@)),
{
    let mut c = redis::Cmd::new();
    c.arg(words);
    match conn {
        RedisConn::Single(x) => c.query(x),
        RedisConn::Cluster(x, _) => c.query(x),
    }
}

/// Relies on `redis::pipe` and `redis::Pipeline::atomic`: an empty pipeline
/// that runs as one MULTI/EXEC transaction.
#[verifier::external_body]
fn atomic_pipeline() -> (r: redis::Pipeline)
    ensures
        queued_commands(r) == Seq::<Seq<Seq<char>>>::empty(),
        pipeline_atomic(r),
{
    let mut p = redis::pipe();
    p.atomic();
    p
}

/// Relies on `redis::Pipeline::add_command`: the command made of the words
/// goes after those already queued.
#[verifier::external_body]
fn pipeline_push(p: &mut redis::Pipeline, words: &Vec<String>)
    ensures
        queued_commands(*final(p)) == queued_commands(*old(p)).push(text_views(words@)),
        pipeline_atomic(*final(p)) == pipeline_atomic(*old(p)),
{
    let mut c = redis::Cmd::new();
    c.arg(words);
    p.add_command(c);
}

/// Relies on `redis::Pipeline::query`: runs the queued commands over either
/// kind of connection, an atomic pipeline between MULTI and EXEC; an empty
/// pipeline sends nothing.
#[verifier::external_body]
fn run_pipeline(conn: &mut RedisConn, p: &redis::Pipeline) -> (r: Result<(), redis::RedisError>)
    ensures
        r is Ok ==> sent(*final(conn)) == sent(*old(conn)) + pipeline_run_words(*p),
{
    match conn {
        RedisConn::Single(x) => p.query(x),
        RedisConn::Cluster(x, _) => p.query(x),
    }
}

/// A transaction that runs `ops` in order, as one all-or-nothing unit.
pub fn transaction_pipeline(ops: &Vec<StoreCommand>) -> (r: redis::Pipeline)
    ensures
        queued_commands(r) == ops@.map_values(|c: StoreCommand| command_words(c)),
        pipeline_atomic(r),
{
    let mut p = atomic_pipeline();
    let mut i: usize = 0;
    while i < ops.len()
        invariant
            i <= ops@.len(),
            queued_commands(p) == ops@.take(i as int).map_values(|c: StoreCommand| command_words(c)),
            pipeline_atomic(p),
        decreases ops@.len() - i,
    {
        let w = ops[i].words();
        pipeline_push(&mut p, &w);
        proof {
            assert(ops@.take(i + 1).map_values(|c: StoreCommand| command_words(c)) =~= ops@.take(
                i as int,
            ).map_values(|c: StoreCommand| command_words(c)).push(command_words(ops@[i as int])));
        }
        i = i + 1;
    }
    proof {
        assert(ops@.take(ops@.len() as int) == ops@);
    }
    p
}

/// Runs `ops` on `conn` as one MULTI/EXEC transaction: on success the store
/// has run exactly these commands, in order, as one unit. An error from the
/// store is returned as it came; nothing is retried.
pub fn with_transaction(conn: &mut RedisConn, ops: &Vec<StoreCommand>) -> (r: Result<
    (),
    redis::RedisError,
>)
    ensures
        r is Ok ==> sent(*final(conn)) == sent(*old(conn)) + transaction_words(ops@),
{
    let p = transaction_pipeline(ops);
    let r = run_pipeline(conn, &p);
    proof {
        if ops@.len() > 0 {
            assert(pipeline_run_words(p) =~= transaction_words(ops@));
        } else {
            assert(queued_commands(p) =~= Seq::<Seq<Seq<char>>>::empty());
            assert(pipeline_run_words(p) =~= transaction_words(ops@));
        }
    }
    r
}

impl RedisConn {
    /// Opens a connection of the same kind as the client.
    pub fn get_connection(client: &RedisConnection) -> (r: Result<RedisConn, redis::RedisError>)
        ensures
            r matches Ok(c) ==> (c is Single <==> client is Single),
    {
        match client {
            RedisConnection::Single(c) => match c.get_connection() {
                Ok(conn) => Ok(RedisConn::Single(conn)),
                Err(e) => Err(e),
            },
            RedisConnection::Cluster(c, node) => match c.get_connection() {
                Ok(conn) => match node.get_connection() {
                    Ok(node_conn) => Ok(RedisConn::Cluster(conn, node_conn)),
                    Err(e) => Err(e),
                },
                Err(e) => Err(e),
            },
        }
    }

    /// `SET key value`.
    pub fn set(&mut self, key: &String, value: &String) -> (r: Result<(), redis::RedisError>) 
        ensures
            r is Ok ==> sent(*final(self)) == sent(*old(self)).push(seq!["SET"@, key@, value@]),
    {
        let w = StoreCommand::SetKey(key.clone(), value.clone()).words();
        query_unit(self, &w)
    }

    /// `SETEX key seconds value`.
    pub fn set_ex(&mut self, key: &String, value: &String, seconds: u64) -> (r: Result<
        (),
        redis::RedisError,
    >) 
        ensures
            r is Ok ==> sent(*final(self)) == sent(*old(self)).push(seq!["SETEX"@, key@, decimal(seconds as int), value@]),
    {
        let w = StoreCommand::SetEx(key.clone(), value.clone(), seconds).words();
        query_unit(self, &w)
    }

    /// `GET key`: the value, or `None` where the key is absent.
    pub fn get(&mut self, key: &String) -> (r: Result<Option<String>, redis::RedisError>) 
        ensures
            r is Ok ==> sent(*final(self)) == sent(*old(self)).push(seq!["GET"@, key@]),
    {
        let w = StoreCommand::Get(key.clone()).words();
        query_text(self, &w)
    }

    /// `DEL key`: how many keys were removed.
    pub fn del(&mut self, key: &String) -> (r: Result<i64, redis::RedisError>) 
        ensures
            r is Ok ==> sent(*final(self)) == sent(*old(self)).push(seq!["DEL"@, key@]),
    {
        let w = StoreCommand::Del(key.clone()).words();
        query_i64(self, &w)
    }

    /// `EXISTS key`.
    pub fn key_exists(&mut self, key: &String) -> (r: Result<bool, redis::RedisError>) 
        ensures
            r is Ok ==> sent(*final(self)) == sent(*old(self)).push(seq!["EXISTS"@, key@]),
    {
        let w = StoreCommand::Exists(key.clone()).words();
        query_bool(self, &w)
    }

    /// `SETNX key value`: whether the key was set.
    pub fn set_nx(&mut self, key: &String, value: &String) -> (r: Result<bool, redis::RedisError>) 
        ensures
            r is Ok ==> sent(*final(self)) == sent(*old(self)).push(seq!["SETNX"@, key@, value@]),
    {
        let w = StoreCommand::SetNx(key.clone(), value.clone()).words();
        query_bool(self, &w)
    }

    /// `EXPIRE key seconds`.
    pub fn expire(&mut self, key: &String, seconds: i64) -> (r: Result<(), redis::RedisError>) 
        ensures
            r is Ok ==> sent(*final(self)) == sent(*old(self)).push(seq!["EXPIRE"@, key@, decimal(seconds as int)]),
    {
        let w = StoreCommand::Expire(key.clone(), seconds).words();
        query_unit(self, &w)
    }

    /// `INCRBY key increment`: the new value.
    pub fn incr(&mut self, key: &String, increment: i64) -> (r: Result<i64, redis::RedisError>) 
        ensures
            r is Ok ==> sent(*final(self)) == sent(*old(self)).push(seq!["INCRBY"@, key@, decimal(increment as int)]),
    {
        let w = StoreCommand::IncrBy(key.clone(), increment).words();
        query_i64(self, &w)
    }

    /// `PUBLISH channel message`: how many subscribers received it.
    pub fn publish(&mut self, channel: &String, message: &String) -> (r: Result<
        i32,
        redis::RedisError,
    >) 
        ensures
            r is Ok ==> sent(*final(self)) == sent(*old(self)).push(seq!["PUBLISH"@, channel@, message@]),
    {
        let w = StoreCommand::Publish(channel.clone(), message.clone()).words();
        query_i32(self, &w)
    }

    /// A subscription handle: on a single node, on this connection; on a
    /// cluster, on the connection to its node.
    pub fn pubsub(&mut self) -> (r: Result<redis::PubSub<'_>, redis::RedisError>)
        ensures
            r is Ok,
    {
        match self {
            RedisConn::Single(conn) => Ok(conn.as_pubsub()),
            RedisConn::Cluster(_, node) => Ok(node.as_pubsub()),
        }
    }
}

} // verus!
