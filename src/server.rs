//! The server's side of a connection: each request goes to the engine, and the
//! engine's answer, or its error's message, goes back as a reply frame.
use vstd::prelude::*;
use crate::errors::KvsError;
use crate::protocol::{
    enc_reply, encode_get_resp, encode_remove_resp, encode_set_resp, GetResp, RemoveResp, ReplyModel,
    Request, RequestModel, SetResp,
};

verus! {

/// A storage engine: what a server serves requests from. Clones share one store.
/// An implementation says, through the three `*_gives` predicates, which results
/// its calls may give; one that does not say promises nothing about its results.
pub trait Engine: Clone + Send + 'static {
    /// `r` is a result that `set(key, value)` may give.
    open spec fn set_gives(&self, key: Seq<char>, value: Seq<char>, r: Result<(), KvsError>) -> bool {
        true
    }

    /// `r` is a result that `get(key)` may give.
    open spec fn get_gives(&self, key: Seq<char>, r: Result<Option<String>, KvsError>) -> bool {
        true
    }

    /// `r` is a result that `remove(key)` may give.
    open spec fn remove_gives(&self, key: Seq<char>, r: Result<(), KvsError>) -> bool {
        true
    }

    /// Binds `key` to `value`.
    fn set(&self, key: String, value: String) -> (r: Result<(), KvsError>)
        ensures
            self.set_gives(key@, value@, r),
    ;

    /// The value bound to `key`, or `None` when the store does not hold it.
    fn get(&self, key: String) -> (r: Result<Option<String>, KvsError>)
        ensures
            self.get_gives(key@, r),
    ;

    /// Removes `key`; `KeyNotFound` when the store does not hold it.
    fn remove(&self, key: String) -> (r: Result<(), KvsError>)
        ensures
            self.remove_gives(key@, r),
    ;
}

/// The reply that carries the result of a `get`.
pub open spec fn value_reply(res: Result<Option<String>, KvsError>) -> ReplyModel {
    match res {
        Ok(Some(v)) => ReplyModel::Value(v@),
        Ok(None) => ReplyModel::Done,
        Err(e) => ReplyModel::Failed(e.message_spec()),
    }
}

/// The reply that carries the result of a `set` or a `remove`.
pub open spec fn unit_reply(res: Result<(), KvsError>) -> ReplyModel {
    match res {
        Ok(_) => ReplyModel::Done,
        Err(e) => ReplyModel::Failed(e.message_spec()),
    }
}

/// The reply to a `Get` whose engine call gave `res`.
pub fn get_reply(res: Result<Option<String>, KvsError>) -> (r: GetResp)
    ensures
        match res {
            Ok(v) => r == GetResp::Value(v),
            Err(e) => r matches GetResp::Failure(m) && m@ == e.message_spec(),
        },
{
    match res {
        Ok(v) => GetResp::Value(v),
        Err(e) => GetResp::Failure(e.message()),
    }
}

/// The reply to a `Set` whose engine call gave `res`.
pub fn set_reply(res: Result<(), KvsError>) -> (r: SetResp)
    ensures
        match res {
            Ok(_) => r == SetResp::Done,
            Err(e) => r matches SetResp::Failure(m) && m@ == e.message_spec(),
        },
{
    match res {
        Ok(_) => SetResp::Done,
        Err(e) => SetResp::Failure(e.message()),
    }
}

/// The reply to a `Remove` whose engine call gave `res`.
pub fn remove_reply(res: Result<(), KvsError>) -> (r: RemoveResp)
    ensures
        match res {
            Ok(_) => r == RemoveResp::Done,
            Err(e) => r matches RemoveResp::Failure(m) && m@ == e.message_spec(),
        },
{
    match res {
        Ok(_) => RemoveResp::Done,
        Err(e) => RemoveResp::Failure(e.message()),
    }
}

/// `out` answers `req` from `engine`: a `Get` went to `get`, a `Set` to `set` and a
/// `Remove` to `remove`, with the request's key and value, and `out` is the reply
/// frame that carries what the call gave.
pub open spec fn answered<E: Engine>(engine: E, req: RequestModel, out: Seq<u8>) -> bool {
    &&& req is Get ==> exists|res: Result<Option<String>, KvsError>|
        #[trigger] engine.get_gives(req->Get_key, res) && out == enc_reply(value_reply(res))
    &&& req is Put ==> exists|res: Result<(), KvsError>|
        #[trigger] engine.set_gives(req->Put_key, req->Put_value, res) && out == enc_reply(
            unit_reply(res),
        )
    &&& req is Remove ==> exists|res: Result<(), KvsError>|
        #[trigger] engine.remove_gives(req->Remove_key, res) && out == enc_reply(unit_reply(res))
}

/// Serves requests from an engine.
pub struct Server<E: Engine> {
    engine: E,
}

impl<E: Engine> Server<E> {
    pub closed spec fn engine_spec(&self) -> E {
        self.engine
    }

    /// A server over `engine`.
    pub fn new(engine: E) -> (r: Self)
        ensures
            r.engine_spec() == engine,
    {
        Server { engine }
    }

    /// The engine that requests go to.
    pub fn engine(&self) -> (r: &E)
        ensures
            *r == self.engine_spec(),
    {
        &self.engine
    }

    /// Answers one request: a `Get` goes to the engine's `get`, a `Set` to its `set`
    /// and a `Remove` to its `remove`, with the request's key and value; the reply
    /// frame carries what the call gave. An engine error becomes a failure reply that
    /// carries its message.
    pub fn handle_request(&self, req: Request) -> (r: Vec<u8>)
        ensures
            answered(self.engine_spec(), req@, r@),
    {
        let ghost q = req@;
        match &req {
            Request::Get { key } => {
                let ghost k = key@;
                assert(q == RequestModel::Get { key: k });
                let res = self.engine.get(key.clone());
                let ghost res0 = res;
                let resp = get_reply(res);
                let out = encode_get_resp(&resp);
                assert(resp@ == value_reply(res0));
                assert(self.engine_spec().get_gives(k, res0) && out@ == enc_reply(value_reply(res0)))
                    by {
                    match res0 {
                        Ok(Some(v)) => assert(resp@ == ReplyModel::Value(v@)),
                        Ok(None) => assert(resp@ == ReplyModel::Done),
                        Err(e) => assert(resp@ == ReplyModel::Failed(e.message_spec())),
                    }
                }
                assert(q->Get_key == k);
                assert(exists|x: Result<Option<String>, KvsError>|
                    #[trigger] self.engine_spec().get_gives(k, x) && out@ == enc_reply(value_reply(x)));
                assert(exists|x: Result<Option<String>, KvsError>|
                    #[trigger] self.engine_spec().get_gives(q->Get_key, x) && out@ == enc_reply(value_reply(x)));
                assert(answered(self.engine_spec(), q, out@));
                out
            },
            Request::Put { key, value } => {
                let ghost k = key@;
                let ghost v = value@;
                let res = self.engine.set(key.clone(), value.clone());
                let ghost res0 = res;
                let resp = set_reply(res);
                let out = encode_set_resp(&resp);
                assert(resp@ == unit_reply(res0));
                assert(self.engine_spec().set_gives(k, v, res0) && out@ == enc_reply(unit_reply(res0)));
                assert(q == RequestModel::Put { key: k, value: v });
                assert(q->Put_key == k && q->Put_value == v);
                assert(exists|x: Result<(), KvsError>|
                    #[trigger] self.engine_spec().set_gives(k, v, x) && out@ == enc_reply(unit_reply(x)));
                assert(exists|x: Result<(), KvsError>|
                    #[trigger] self.engine_spec().set_gives(q->Put_key, q->Put_value, x) && out@
                        == enc_reply(unit_reply(x)));
                assert(answered(self.engine_spec(), q, out@));
                out
            },
            Request::Remove { key } => {
                let ghost k = key@;
                let res = self.engine.remove(key.clone());
                let ghost res0 = res;
                let resp = remove_reply(res);
                let out = encode_remove_resp(&resp);
                assert(resp@ == unit_reply(res0));
                assert(self.engine_spec().remove_gives(k, res0) && out@ == enc_reply(unit_reply(res0)));
                assert(q == RequestModel::Remove { key: k });
                assert(q->Remove_key == k);
                assert(exists|x: Result<(), KvsError>|
                    #[trigger] self.engine_spec().remove_gives(k, x) && out@ == enc_reply(unit_reply(x)));
                assert(exists|x: Result<(), KvsError>|
                    #[trigger] self.engine_spec().remove_gives(q->Remove_key, x) && out@
                        == enc_reply(unit_reply(x)));
                assert(answered(self.engine_spec(), q, out@));
                out
            },
        }
    }
}

} // verus!
