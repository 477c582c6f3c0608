//! Request handling over the registry, and the maintenance passes.
//!
//! Disk access stays with the caller: a request that needs a cold filter's
//! stored bytes is answered once the caller has read them, and an outcome
//! names what the caller must write or delete.
use crate::clock::now_seconds;
use crate::hashing::{gxhash32_of, key_hash};
use crate::codec::{decode, enc_filter, encode, storable};
use crate::database::{db_wf, evicted, is_cold, is_idle, is_warm, kept, names, DatabaseView, DbError, FilterDatabase};
use crate::filter::{
    after_check, cap_u64, cleared, contains, hash_ok, max_hash_count, set_outcome, sizing_ok, total_bits,
    total_bytes, total_hits, total_miss, total_size, Geometry, ScalableBloomFilter, ScalableView, SetError,
    StageRequest,
};
use crate::protocol::{spec_parse, decimal, decimal_text, fpp_text, fpp_to_text, InfoReport, Request, RequestView, Response};
use vstd::prelude::*;
use vstd::utf8::encode_utf8;

verus! {

/// What a request leads to: the answer, and the disk work it asks for.
pub struct Outcome {
    pub response: Response,
    /// A filter to write, by name, as its stored bytes.
    pub store: Option<(String, Vec<u8>)>,
    /// A filter whose stored bytes are to be deleted.
    pub remove: Option<String>,
}

/// Whether `r` is an error with the text `t`.
pub open spec fn is_error_text(r: Response, t: Seq<char>) -> bool {
    r matches Response::Error(m) && m@ == t
}

/// The error text for a name that is neither warm nor cold.
pub open spec fn unknown_text(name: Seq<char>) -> Seq<char> {
    "no scalable filter named "@ + name
}

pub open spec fn set_error_text(e: SetError) -> Seq<char> {
    match e {
        SetError::Full => "full capacity reached"@,
        SetError::CannotGrow => "no room for a new stage"@,
    }
}

/// The error text for an insertion that a filter refused.
pub open spec fn set_failed_text(key: Seq<char>, name: Seq<char>, e: SetError) -> Seq<char> {
    "set \""@ + key + "\" into \""@ + name + "\" filter failed: "@ + set_error_text(e)
}

/// The error text for a cold filter whose stored state could not be used.
pub open spec fn recover_failed_text(name: Seq<char>, why: Seq<char>) -> Seq<char> {
    "error recovering cold "@ + name + ": "@ + why
}

/// Whether `r` is the `info` report of `v`.
pub open spec fn reports(r: InfoReport, v: ScalableView) -> bool {
    &&& r.name@ == v.name
    &&& r.capacity == total_bits(v.stages)
    &&& r.size == total_size(v.stages)
    &&& r.space == total_bytes(v.stages)
    &&& r.filters == v.stages.len()
    &&& r.hash_functions == max_hash_count(v.stages)
    &&& r.hits == cap_u64(total_hits(v.stages))
    &&& r.miss == cap_u64(total_miss(v.stages))
    &&& r.creation == v.creation_time
    &&& r.last_access == v.last_access_time
}

/// One `list` line: name, capacity and probability.
pub open spec fn list_line(v: ScalableView) -> Seq<char> {
    v.name + " "@ + decimal_text(total_bits(v.stages)) + " "@ + fpp_text(v.fpp)
}

/// The `list` answer: one line per warm filter, in order, joined by line breaks.
pub open spec fn list_text(warm: Seq<ScalableView>) -> Seq<char>
    decreases warm.len(),
{
    if warm.len() == 0 {
        Seq::empty()
    } else if warm.len() == 1 {
        list_line(warm[0])
    } else {
        list_text(warm.drop_last()) + "\n"@ + list_line(warm.last())
    }
}

/// The registry after a request on the warm filter at `i` left it as `f`.
pub open spec fn with_warm(v: DatabaseView, i: int, f: ScalableView) -> DatabaseView {
    DatabaseView { warm: v.warm.update(i, f), cold: v.cold }
}

fn unknown(name: &String) -> (r: Response)
    ensures
        r matches Response::Error(m) && m@ == unknown_text(name@),
{
    Response::Error("no scalable filter named ".to_owned().concat(name.as_str()))
}

fn set_failed(key: &String, name: &String, e: SetError) -> (r: Response)
    ensures
        r matches Response::Error(m) && m@ == set_failed_text(key@, name@, e),
{
    let why = match e {
        SetError::Full => "full capacity reached",
        SetError::CannotGrow => "no room for a new stage",
    };
    Response::Error(
        "set \"".to_owned().concat(key.as_str()).concat("\" into \"").concat(name.as_str()).concat(
            "\" filter failed: ",
        ).concat(why),
    )
}

fn recover_failed(name: &String, why: &str) -> (r: Response)
    ensures
        r matches Response::Error(m) && m@ == recover_failed_text(name@, why@),
{
    Response::Error("error recovering cold ".to_owned().concat(name.as_str()).concat(": ").concat(why))
}

/// The `info` report of a filter.
pub fn report(f: &ScalableBloomFilter) -> (r: InfoReport)
    requires
        f.wf(),
    ensures
        reports(r, f@),
{
    InfoReport {
        name: f.name().clone(),
        capacity: f.capacity(),
        size: f.size(),
        space: f.byte_space(),
        filters: f.filter_count(),
        hash_functions: f.hash_count(),
        hits: f.hits(),
        miss: f.miss(),
        creation: f.creation_time(),
        last_access: f.last_access_time(),
    }
}

/// The `list` answer for the registry.
pub fn list(db: &FilterDatabase) -> (r: String)
    requires
        db.wf(),
    ensures
        r@ == list_text(db@.warm),
{
    let fs = db.warm_filters();
    let ghost w = db@.warm;
    let mut out = String::new();
    let mut i: usize = 0;
    proof { assert(w.subrange(0, 0) =~= Seq::<ScalableView>::empty()); }
    while i < fs.len()
        invariant
            fs@.len() == w.len(),
            forall|j: int| 0 <= j < fs@.len() ==> #[trigger] fs@[j]@ == w[j] && fs@[j].wf(),
            i <= w.len(),
            out@ == list_text(w.subrange(0, i as int)),
        decreases w.len() - i,
    {
        let f = &fs[i];
        let line = f.name().clone().concat(" ").concat(decimal(f.capacity() as u64).as_str()).concat(" ").concat(
            fpp_to_text(f.fpp()).as_str(),
        );
        proof {
            assert(w.subrange(0, i + 1).drop_last() =~= w.subrange(0, i as int));
            assert(w.subrange(0, i + 1).last() == w[i as int]);
        }
        if i == 0 {
            out = line;
            proof { assert(w.subrange(0, 1)[0] == w[0]); }
        } else {
            out = out.concat("\n").concat(line.as_str());
        }
        i = i + 1;
    }
    proof { assert(w.subrange(0, w.len() as int) =~= w); }
    out
}


/// The name of a request that needs the filter's state: `set`, `check`, `info`.
pub open spec fn state_name(req: RequestView) -> Option<Seq<char>> {
    match req {
        RequestView::Insert(n, _) => Some(n),
        RequestView::Check(n, _) => Some(n),
        RequestView::Info(n) => Some(n),
        _ => None,
    }
}

/// The name of a request that needs a cold filter's stored bytes before it
/// can be answered.
pub fn cold_target(db: &FilterDatabase, req: &Request) -> (r: Option<String>)
    ensures
        r is None ==> !(state_name(req@) matches Some(n) && is_cold(db@, n)),
        r matches Some(n) ==> state_name(req@) == Some(n@) && is_cold(db@, n@),
{
    let name = match req {
        Request::Insert(n, _) => n,
        Request::Check(n, _) => n,
        Request::Info(n) => n,
        _ => return None,
    };
    if db.is_cold(name) {
        Some(name.clone())
    } else {
        None
    }
}

fn done() -> (r: Outcome)
    ensures
        r.response == Response::Done,
        r.store is None,
        r.remove is None,
{
    Outcome { response: Response::Done, store: None, remove: None }
}

fn answer(response: Response) -> (r: Outcome)
    ensures
        r.response == response,
        r.store is None,
        r.remove is None,
{
    Outcome { response, store: None, remove: None }
}

/// The registry after a cold filter, restored as `v`, is taken back warm.
pub open spec fn promoted(o: DatabaseView, v: ScalableView) -> DatabaseView {
    DatabaseView {
        warm: o.warm.push(v),
        cold: o.cold.remove(choose|j: int| 0 <= j < o.cold.len() && #[trigger] o.cold[j] == v.name),
    }
}

/// Loads the cold filter `name` from its stored bytes and takes it back warm.
fn pull_back(db: &mut FilterDatabase, name: &String, stored: Option<Result<Vec<u8>, String>>) -> (r: Result<
    (),
    Response,
>)
    requires
        old(db).wf(),
        is_cold(old(db)@, name@),
    ensures
        final(db).wf(),
        r matches Err(resp) ==> final(db)@ == old(db)@ && exists|why: Seq<char>| is_error_text(resp, recover_failed_text(name@, why)),
        r is Ok ==> exists|v: ScalableView| {
            &&& stored matches Some(Ok(bytes)) && enc_filter(v) == bytes@
            &&& v.name == name@
            &&& final(db)@ == promoted(old(db)@, v)
        },
        forall|v: ScalableView|
            storable(v) && v.name == name@ && (stored matches Some(Ok(bytes)) && bytes@ == #[trigger] enc_filter(v))
                ==> r is Ok && final(db)@ == promoted(old(db)@, v),
{
    let bytes = match stored {
        Some(Ok(b)) => b,
        Some(Err(e)) => return Err(recover_failed(name, e.as_str())),
        None => return Err(recover_failed(name, "stored state not read")),
    };
    let f = match decode(bytes.as_slice()) {
        Some(f) => f,
        None => return Err(recover_failed(name, "stored state is corrupt")),
    };
    if !f.name().eq(name) {
        return Err(recover_failed(name, "stored state names another filter"));
    }
    let ghost fv = f@;
    let ok = db.promote(f);
    proof {
        let j = choose|j: int| 0 <= j < old(db)@.cold.len() && #[trigger] old(db)@.cold[j] == fv.name;
        assert(old(db)@.cold[j] == fv.name);
        assert(final(db)@ == promoted(old(db)@, fv));
        assert(enc_filter(fv) == bytes@);
        assert(stored matches Some(Ok(bb)) && enc_filter(fv) == bb@);
    }
    Ok(())
}

/// The answer to `set` on a warm filter, from the insertion's result.
pub open spec fn insert_response(r: Response, key: Seq<char>, name: Seq<char>, res: Result<bool, SetError>) -> bool {
    match res {
        Ok(_) => r == Response::Done,
        Err(e) => is_error_text(r, set_failed_text(key, name, e)),
    }
}

/// The warm filter `v` after a `set` of the key bytes `b` at time `now`.
pub open spec fn after_insert<H: Fn(&[u8], u32) -> u32, S: Fn(StageRequest) -> Geometry>(
    v: ScalableView,
    h: &H,
    s: &S,
    b: &[u8],
    now: int,
) -> ScalableView {
    ScalableView { stages: set_outcome(v, h, s, b).1, last_access_time: now, ..v }
}

/// The warm filter `v` after a `check` of the key bytes `b` at time `now`.
pub open spec fn after_lookup<H: Fn(&[u8], u32) -> u32>(v: ScalableView, h: &H, b: &[u8], now: int) -> ScalableView {
    ScalableView { stages: after_check(v.stages, h, b), last_access_time: now, ..v }
}

/// Handles `set name key` on a warm or absent filter.
fn insert_warm<H: Fn(&[u8], u32) -> u32, S: Fn(StageRequest) -> Geometry>(
    db: &mut FilterDatabase,
    name: &String,
    key: &String,
    hash: &H,
    sizing: &S,
    now: i64,
) -> (r: Outcome)
    requires
        old(db).wf(),
        hash_ok(hash),
        sizing_ok(sizing),
    ensures
        final(db).wf(),
        r.store is None && r.remove is None,
        !is_warm(old(db)@, name@) ==> final(db)@ == old(db)@ && is_error_text(r.response, unknown_text(name@)),
        forall|i: int, b: &[u8]|
            0 <= i < old(db)@.warm.len() && #[trigger] old(db)@.warm[i].name == name@ && #[trigger] b@ == encode_utf8(key@) ==> {
                &&& final(db)@ == with_warm(old(db)@, i, after_insert(old(db)@.warm[i], hash, sizing, b, now as int))
                &&& insert_response(r.response, key@, name@, set_outcome(old(db)@.warm[i], hash, sizing, b).0)
            },
{
    let kb = key.as_str().as_bytes();
    let res = db.set(name, kb, hash, sizing, now);
    proof {
        assert forall|i: int, b: &[u8]|
            0 <= i < old(db)@.warm.len() && #[trigger] old(db)@.warm[i].name == name@ && #[trigger] b@ == encode_utf8(key@) implies b == kb by {
            assert(b =~= kb);
        }
    }
    match res {
        Ok(_) => done(),
        Err(DbError::Unknown) => answer(unknown(name)),
        Err(DbError::Insert(e)) => answer(set_failed(key, name, e)),
    }
}

/// Handles `check name key` on a warm or absent filter.
fn check_warm<H: Fn(&[u8], u32) -> u32>(db: &mut FilterDatabase, name: &String, key: &String, hash: &H, now: i64) -> (r: Outcome)
    requires
        old(db).wf(),
        hash_ok(hash),
    ensures
        final(db).wf(),
        r.store is None && r.remove is None,
        !is_warm(old(db)@, name@) ==> final(db)@ == old(db)@ && is_error_text(r.response, unknown_text(name@)),
        forall|i: int, b: &[u8]|
            0 <= i < old(db)@.warm.len() && #[trigger] old(db)@.warm[i].name == name@ && #[trigger] b@ == encode_utf8(key@) ==> {
                &&& final(db)@ == with_warm(old(db)@, i, after_lookup(old(db)@.warm[i], hash, b, now as int))
                &&& r.response == if contains(old(db)@.warm[i].stages, hash, b) { Response::True } else { Response::False }
            },
{
    let kb = key.as_str().as_bytes();
    let res = db.check(name, kb, hash, now);
    proof {
        assert forall|i: int, b: &[u8]|
            0 <= i < old(db)@.warm.len() && #[trigger] old(db)@.warm[i].name == name@ && #[trigger] b@ == encode_utf8(key@) implies b == kb by {
            assert(b =~= kb);
        }
    }
    match res {
        Ok(true) => answer(Response::True),
        Ok(false) => answer(Response::False),
        Err(_) => answer(unknown(name)),
    }
}


/// The outcome of `handle_request`, by request.
pub open spec fn handled<H: Fn(&[u8], u32) -> u32, S: Fn(StageRequest) -> Geometry>(
    o: DatabaseView,
    f: DatabaseView,
    req: RequestView,
    stored: Option<Result<Vec<u8>, String>>,
    h: &H,
    s: &S,
    now: int,
    r: Outcome,
) -> bool {
    match req {
        RequestView::Create(n, c, p) => {
            &&& r.response == Response::Done && r.store is None && r.remove is None
            &&& (is_warm(o, n) || is_cold(o, n)) ==> f == o
            &&& !(is_warm(o, n) || is_cold(o, n)) ==> f == (DatabaseView {
                warm: o.warm.push(ScalableView {
                    name: n,
                    initial_capacity: c as nat,
                    stages: Seq::empty(),
                    fpp: p,
                    scale_factor: crate::filter::ScaleFactor::SmallScaleSize,
                    creation_time: now,
                    last_access_time: now,
                }),
                cold: o.cold,
            })
        },
        RequestView::Insert(n, k) => {
            &&& r.store is None && r.remove is None
            &&& (!is_warm(o, n) && !is_cold(o, n)) ==> f == o && is_error_text(r.response, unknown_text(n))
            &&& forall|i: int, b: &[u8]|
                0 <= i < o.warm.len() && #[trigger] o.warm[i].name == n && #[trigger] b@ == encode_utf8(k) ==> {
                    &&& f == with_warm(o, i, after_insert(o.warm[i], h, s, b, now))
                    &&& insert_response(r.response, k, n, set_outcome(o.warm[i], h, s, b).0)
                }
            &&& is_cold(o, n) ==> (
                (f == o && exists|why: Seq<char>| is_error_text(r.response, recover_failed_text(n, why)))
                || exists|v: ScalableView| {
                    &&& stored matches Some(Ok(bytes)) && enc_filter(v) == bytes@
                    &&& v.name == n
                    &&& forall|b: &[u8]| #[trigger] b@ == encode_utf8(k) ==> {
                        &&& f == with_warm(promoted(o, v), o.warm.len() as int, after_insert(v, h, s, b, now))
                        &&& insert_response(r.response, k, n, set_outcome(v, h, s, b).0)
                    }
                })
            &&& is_cold(o, n) ==> forall|v: ScalableView, b: &[u8]|
                storable(v) && v.name == n && (stored matches Some(Ok(bytes)) && bytes@ == #[trigger] enc_filter(v))
                    && #[trigger] b@ == encode_utf8(k) ==> {
                    &&& f == with_warm(promoted(o, v), o.warm.len() as int, after_insert(v, h, s, b, now))
                    &&& insert_response(r.response, k, n, set_outcome(v, h, s, b).0)
                }
        },
        RequestView::Check(n, k) => {
            &&& r.store is None && r.remove is None
            &&& (!is_warm(o, n) && !is_cold(o, n)) ==> f == o && is_error_text(r.response, unknown_text(n))
            &&& forall|i: int, b: &[u8]|
                0 <= i < o.warm.len() && #[trigger] o.warm[i].name == n && #[trigger] b@ == encode_utf8(k) ==> {
                    &&& f == with_warm(o, i, after_lookup(o.warm[i], h, b, now))
                    &&& r.response == if contains(o.warm[i].stages, h, b) { Response::True } else { Response::False }
                }
            &&& is_cold(o, n) ==> (
                (f == o && exists|why: Seq<char>| is_error_text(r.response, recover_failed_text(n, why)))
                || exists|v: ScalableView| {
                    &&& stored matches Some(Ok(bytes)) && enc_filter(v) == bytes@
                    &&& v.name == n
                    &&& forall|b: &[u8]| #[trigger] b@ == encode_utf8(k) ==> {
                        &&& f == with_warm(promoted(o, v), o.warm.len() as int, after_lookup(v, h, b, now))
                        &&& r.response == if contains(v.stages, h, b) { Response::True } else { Response::False }
                    }
                })
            &&& is_cold(o, n) ==> forall|v: ScalableView, b: &[u8]|
                storable(v) && v.name == n && (stored matches Some(Ok(bytes)) && bytes@ == #[trigger] enc_filter(v))
                    && #[trigger] b@ == encode_utf8(k) ==> {
                    &&& f == with_warm(promoted(o, v), o.warm.len() as int, after_lookup(v, h, b, now))
                    &&& r.response == if contains(v.stages, h, b) { Response::True } else { Response::False }
                }
        },
        RequestView::Info(n) => {
            &&& r.store is None && r.remove is None
            &&& f == o
            &&& (!is_warm(o, n) && !is_cold(o, n)) ==> is_error_text(r.response, unknown_text(n))
            &&& forall|i: int| 0 <= i < o.warm.len() && #[trigger] o.warm[i].name == n ==> (r.response matches Response::Info(rep) && reports(rep, o.warm[i]))
            &&& is_cold(o, n) ==> (
                (exists|why: Seq<char>| is_error_text(r.response, recover_failed_text(n, why)))
                || exists|v: ScalableView| {
                    &&& stored matches Some(Ok(bytes)) && enc_filter(v) == bytes@
                    &&& v.name == n
                    &&& r.response matches Response::Info(rep) && reports(rep, v)
                })
            &&& is_cold(o, n) ==> forall|v: ScalableView|
                storable(v) && v.name == n && (stored matches Some(Ok(bytes)) && bytes@ == #[trigger] enc_filter(v))
                    ==> (r.response matches Response::Info(rep) && reports(rep, v))
        },
        RequestView::Drop(n) => {
            &&& r.store is None
            &&& (!is_warm(o, n) && !is_cold(o, n)) ==> f == o && is_error_text(r.response, unknown_text(n)) && r.remove is None
            &&& (is_warm(o, n) || is_cold(o, n)) ==> r.response == Response::Done && (r.remove matches Some(x) && x@ == n)
            &&& forall|i: int| 0 <= i < o.warm.len() && #[trigger] o.warm[i].name == n ==> f == (DatabaseView { warm: o.warm.remove(i), cold: o.cold })
            &&& forall|j: int| 0 <= j < o.cold.len() && #[trigger] o.cold[j] == n ==> f == (DatabaseView { warm: o.warm, cold: o.cold.remove(j) })
        },
        RequestView::Clear(n) => {
            &&& r.store is None && r.remove is None
            &&& !is_warm(o, n) ==> f == o && is_error_text(r.response, unknown_text(n))
            &&& forall|i: int| 0 <= i < o.warm.len() && #[trigger] o.warm[i].name == n ==> {
                &&& r.response == Response::Done
                &&& f == with_warm(o, i, ScalableView { stages: cleared(o.warm[i].stages), last_access_time: now, ..o.warm[i] })
            }
        },
        RequestView::Persist(n) => {
            &&& r.remove is None
            &&& f == o
            &&& !is_warm(o, n) ==> is_error_text(r.response, unknown_text(n)) && r.store is None
            &&& forall|i: int| 0 <= i < o.warm.len() && #[trigger] o.warm[i].name == n ==> {
                &&& r.response == Response::Done
                &&& r.store matches Some((x, bytes)) && x@ == n && bytes@ == enc_filter(o.warm[i])
            }
        },
        RequestView::List => {
            &&& r.store is None && r.remove is None
            &&& f == o
            &&& r.response matches Response::Listing(t) && t@ == list_text(o.warm)
        },
    }
}

/// A cold filter taken back warm from its stored bytes: which filter it
/// was, and that its name was not warm before.
proof fn lemma_pulled_back(o: DatabaseView, mid: DatabaseView, name: Seq<char>, stored: Option<Result<Vec<u8>, String>>) -> (v: ScalableView)
    requires
        db_wf(o),
        is_cold(o, name),
        exists|v: ScalableView| {
            &&& stored matches Some(Ok(bytes)) && enc_filter(v) == bytes@
            &&& v.name == name
            &&& mid == promoted(o, v)
        },
    ensures
        stored matches Some(Ok(bytes)) && enc_filter(v) == bytes@,
        v.name == name,
        mid == promoted(o, v),
        mid.warm[o.warm.len() as int] == v,
        !is_warm(o, name),
{
    let v = choose|v: ScalableView| {
        &&& stored matches Some(Ok(bytes)) && enc_filter(v) == bytes@
        &&& v.name == name
        &&& mid == promoted(o, v)
    };
    assert(!is_warm(o, name)) by {
        if is_warm(o, name) {
            let i = choose|i: int| 0 <= i < o.warm.len() && #[trigger] o.warm[i].name == name;
            assert(!o.cold.contains(o.warm[i].name));
        }
    }
    v
}

/// With unique names, the warm filter found under `name` is the one at every
/// position that holds that name.
proof fn lemma_found_warm(v: DatabaseView, f: ScalableView, name: Seq<char>)
    requires
        db_wf(v),
        exists|j: int| 0 <= j < v.warm.len() && v.warm[j] == f && f.name == name,
    ensures
        forall|i: int| 0 <= i < v.warm.len() && #[trigger] v.warm[i].name == name ==> v.warm[i] == f,
{
    assert forall|i: int| 0 <= i < v.warm.len() && #[trigger] v.warm[i].name == name implies v.warm[i] == f by {
        let j = choose|j: int| 0 <= j < v.warm.len() && v.warm[j] == f && f.name == name;
        if i != j {
            if i < j { assert(v.warm[i].name != v.warm[j].name); }
            else { assert(v.warm[j].name != v.warm[i].name); }
        }
    }
}

/// Answers one request. `stored` holds what the caller read of the filter
/// that `cold_target` names, if it names one.
pub fn handle_request<H: Fn(&[u8], u32) -> u32, S: Fn(StageRequest) -> Geometry>(
    db: &mut FilterDatabase,
    req: &Request,
    stored: Option<Result<Vec<u8>, String>>,
    hash: &H,
    sizing: &S,
    now: i64,
) -> (r: Outcome)
    requires
        old(db).wf(),
        hash_ok(hash),
        sizing_ok(sizing),
    ensures
        final(db).wf(),
        handled(old(db)@, final(db)@, req@, stored, hash, sizing, now as int, r),
{
    match req {
        Request::Create(name, capacity, fpp) => {
            db.create(name.clone(), *capacity, *fpp, now);
            done()
        },
        Request::Insert(name, key) => {
            if db.is_cold(name) {
                let ghost o = db@;
                proof { db.lemma_unique(); }
                match pull_back(db, name, stored) {
                    Ok(()) => {
                        let ghost mid = db@;
                        let r = insert_warm(db, name, key, hash, sizing, now);
                        proof {
                            let v = lemma_pulled_back(o, mid, name@, stored);
                        }
                        r
                    },
                    Err(resp) => answer(resp),
                }
            } else {
                insert_warm(db, name, key, hash, sizing, now)
            }
        },
        Request::Check(name, key) => {
            if db.is_cold(name) {
                let ghost o = db@;
                proof { db.lemma_unique(); }
                match pull_back(db, name, stored) {
                    Ok(()) => {
                        let ghost mid = db@;
                        let r = check_warm(db, name, key, hash, now);
                        proof {
                            let v = lemma_pulled_back(o, mid, name@, stored);
                        }
                        r
                    },
                    Err(resp) => answer(resp),
                }
            } else {
                check_warm(db, name, key, hash, now)
            }
        },
        Request::Info(name) => {
            match db.get(name) {
                Some(f) => {
                    let rep = report(f);
                    proof {
                        db.lemma_unique();
                        lemma_found_warm(db@, f@, name@);
                    }
                    answer(Response::Info(rep))
                },
                None => {
                    if !db.is_cold(name) {
                        return answer(unknown(name));
                    }
                    let bytes = match stored {
                        Some(Ok(b)) => b,
                        Some(Err(e)) => return answer(recover_failed(name, e.as_str())),
                        None => return answer(recover_failed(name, "stored state not read")),
                    };
                    match decode(bytes.as_slice()) {
                        Some(f) => {
                            if !f.name().eq(name) {
                                return answer(recover_failed(name, "stored state names another filter"));
                            }
                            answer(Response::Info(report(&f)))
                        },
                        None => answer(recover_failed(name, "stored state is corrupt")),
                    }
                },
            }
        },
        Request::Drop(name) => {
            match db.drop_filter(name) {
                Ok(()) => Outcome { response: Response::Done, store: None, remove: Some(name.clone()) },
                Err(_) => answer(unknown(name)),
            }
        },
        Request::Clear(name) => {
            match db.clear(name, now) {
                Ok(()) => done(),
                Err(_) => answer(unknown(name)),
            }
        },
        Request::Persist(name) => {
            match db.get(name) {
                Some(f) => {
                    let bytes = encode(f);
                    proof {
                        db.lemma_unique();
                        lemma_found_warm(db@, f@, name@);
                    }
                    Outcome { response: Response::Done, store: Some((name.clone(), bytes)), remove: None }
                },
                None => answer(unknown(name)),
            }
        },
        Request::List => answer(Response::Listing(list(db))),
    }
}


/// The filters' hash family answers every call, the same way for the same arguments.
pub proof fn lemma_key_hash_ok()
    ensures
        hash_ok(&key_hash),
{
    assert forall|b: &[u8], i: u32, r1: u32, r2: u32|
        #[trigger] key_hash.ensures((b, i), r1) && #[trigger] key_hash.ensures((b, i), r2) implies r1 == r2 by {
        assert(r1 == gxhash32_of(b@, i as int));
    }
}

/// The stored bytes of each filter, by name.
pub open spec fn stored_forms(fs: Seq<ScalableView>, out: Seq<(String, Vec<u8>)>) -> bool {
    &&& out.len() == fs.len()
    &&& forall|i: int| 0 <= i < fs.len() ==> (#[trigger] out[i]).0@ == fs[i].name && out[i].1@ == enc_filter(fs[i])
}

fn store_all(fs: &Vec<ScalableBloomFilter>) -> (r: Vec<(String, Vec<u8>)>)
    requires
        forall|i: int| 0 <= i < fs@.len() ==> (#[trigger] fs@[i]).wf(),
    ensures
        stored_forms(fs@.map_values(|f: ScalableBloomFilter| f@), r@),
{
    let mut out: Vec<(String, Vec<u8>)> = Vec::new();
    let mut i: usize = 0;
    while i < fs.len()
        invariant
            i <= fs@.len(),
            forall|j: int| 0 <= j < fs@.len() ==> (#[trigger] fs@[j]).wf(),
            out@.len() == i,
            forall|j: int| 0 <= j < i ==> (#[trigger] out@[j]).0@ == fs@[j]@.name && out@[j].1@ == enc_filter(fs@[j]@),
        decreases fs@.len() - i,
    {
        let f = &fs[i];
        out.push((f.name().clone(), encode(f)));
        i = i + 1;
    }
    out
}

/// The periodic dump: every warm filter's stored bytes, by name.
pub fn dump(db: &FilterDatabase) -> (r: Vec<(String, Vec<u8>)>)
    requires
        db.wf(),
    ensures
        stored_forms(db@.warm, r@),
{
    let fs = db.warm_filters();
    assert forall|i: int| 0 <= i < fs@.len() implies (#[trigger] fs@[i]).wf() by {
        assert(fs@[i]@ == db@.warm[i]);
    }
    let r = store_all(fs);
    proof { assert(fs@.map_values(|f: ScalableBloomFilter| f@) =~= db@.warm); }
    r
}

/// The cold sweep at time `now`: filters idle for the idle period leave
/// memory and turn cold; their stored bytes are returned, by name, to be written.
pub fn sweep(db: &mut FilterDatabase, now: i64) -> (r: Vec<(String, Vec<u8>)>)
    requires
        old(db).wf(),
    ensures
        final(db).wf(),
        final(db)@.warm == kept(old(db)@.warm, now as int),
        final(db)@.cold == old(db)@.cold + names(evicted(old(db)@.warm, now as int)),
        stored_forms(evicted(old(db)@.warm, now as int), r@),
{
    let gone = db.sweep(now);
    store_all(&gone)
}

/// The cold sweep at the current time.
pub fn sweep_now(db: &mut FilterDatabase) -> (r: Vec<(String, Vec<u8>)>)
    requires
        old(db).wf(),
    ensures
        final(db).wf(),
        exists|now: i64| {
            &&& final(db)@.warm == kept(old(db)@.warm, now as int)
            &&& final(db)@.cold == old(db)@.cold + names(evicted(old(db)@.warm, now as int))
            &&& stored_forms(evicted(old(db)@.warm, now as int), r@)
        },
{
    let now = now_seconds();
    sweep(db, now)
}


/// Which filters a sweep keeps and which it evicts.
proof fn lemma_sweep_members(w: Seq<ScalableView>, now: int, x: ScalableView)
    ensures
        kept(w, now).contains(x) ==> w.contains(x) && !is_idle(x, now),
        w.contains(x) && is_idle(x, now) ==> evicted(w, now).contains(x),
    decreases w.len(),
{
    if w.len() > 0 {
        lemma_sweep_members(w.drop_first(), now, x);
        if kept(w, now).contains(x) {
            if !is_idle(w[0], now) {
                let k = kept(w, now);
                let j = choose|j: int| 0 <= j < k.len() && k[j] == x;
                if j > 0 {
                    assert(kept(w.drop_first(), now)[j - 1] == x);
                }
            }
            if x != w[0] {
                let t = w.drop_first();
                let j = choose|j: int| 0 <= j < t.len() && t[j] == x;
                assert(w[j + 1] == x);
            }
        }
        if w.contains(x) && is_idle(x, now) {
            let j = choose|j: int| 0 <= j < w.len() && w[j] == x;
            if j > 0 {
                assert(w.drop_first()[j - 1] == x);
                assert(w.drop_first().contains(x));
            }
            let e = evicted(w, now);
            if j == 0 {
                assert(e[e.len() - 1] == x);
            } else {
                let t = evicted(w.drop_first(), now);
                let q = choose|q: int| 0 <= q < t.len() && t[q] == x;
                if is_idle(w[0], now) {
                    assert(e[q] == x);
                } else {
                    assert(e[q] == x);
                }
            }
        }
    }
}

/// A warm filter left unused for the idle period turns cold at the next
/// sweep: its name leaves the warm set and joins the cold one. A `set` on
/// it afterwards, given the stored bytes that the sweep wrote, takes it back
/// warm and out of the cold set.
pub proof fn lemma_idle_filter_cycles<H: Fn(&[u8], u32) -> u32, S: Fn(StageRequest) -> Geometry>(
    o: DatabaseView,
    i: int,
    now: int,
    swept: DatabaseView,
    key: Seq<char>,
    b: &[u8],
    stored: Option<Result<Vec<u8>, String>>,
    h: &H,
    s: &S,
    later: int,
    f: DatabaseView,
    r: Outcome,
)
    requires
        db_wf(o),
        0 <= i < o.warm.len(),
        storable(o.warm[i]),
        is_idle(o.warm[i], now),
        swept == (DatabaseView { warm: kept(o.warm, now), cold: o.cold + names(evicted(o.warm, now)) }),
        db_wf(swept),
        stored matches Some(Ok(bytes)) && bytes@ == enc_filter(o.warm[i]),
        b@ == encode_utf8(key),
        handled(swept, f, RequestView::Insert(o.warm[i].name, key), stored, h, s, later, r),
    ensures
        is_cold(swept, o.warm[i].name),
        !is_warm(swept, o.warm[i].name),
        is_warm(f, o.warm[i].name),
        !is_cold(f, o.warm[i].name),
{
    let v = o.warm[i];
    let n = v.name;
    assert(o.warm.contains(v));
    lemma_sweep_members(o.warm, now, v);
    let e = evicted(o.warm, now);
    let q = choose|q: int| 0 <= q < e.len() && e[q] == v;
    assert(names(e)[q] == n);
    assert((o.cold + names(e))[o.cold.len() + q] == n);
    assert(is_cold(swept, n));
    assert(!is_warm(swept, n)) by {
        if is_warm(swept, n) {
            let j = choose|j: int| 0 <= j < swept.warm.len() && #[trigger] swept.warm[j].name == n;
            let x = swept.warm[j];
            lemma_sweep_members(o.warm, now, x);
            assert(kept(o.warm, now).contains(x));
            let m = choose|m: int| 0 <= m < o.warm.len() && o.warm[m] == x;
            if m < i {
                assert(o.warm[m].name != o.warm[i].name);
            } else if m > i {
                assert(o.warm[i].name != o.warm[m].name);
            }
        }
    }
    assert(enc_filter(v) == enc_filter(o.warm[i]));
    let p = promoted(swept, v);
    let c = choose|j: int| 0 <= j < swept.cold.len() && #[trigger] swept.cold[j] == v.name;
    assert(swept.cold[c] == n);
    assert(f == with_warm(p, swept.warm.len() as int, after_insert(v, h, s, b, later)));
    assert(f.warm[swept.warm.len() as int].name == n);
    assert(is_warm(f, n));
    assert(!is_cold(f, n)) by {
        if is_cold(f, n) {
            let k = choose|k: int| 0 <= k < f.cold.len() && f.cold[k] == n;
            let k0 = if k < c { k } else { k + 1 };
            assert(swept.cold[k0] == n);
            if k0 < c {
                assert(swept.cold[k0] != swept.cold[c]);
            } else {
                assert(swept.cold[c] != swept.cold[k0]);
            }
        }
    }
}


/// The name whose stored bytes the request on `line` needs before it can be
/// answered: a cold filter that `set`, `check` or `info` names.
pub fn line_cold_target(db: &FilterDatabase, line: &str) -> (r: Option<String>)
    ensures
        r is None ==> !(spec_parse(line@) matches Ok(req) && state_name(req) matches Some(n) && is_cold(db@, n)),
        r matches Some(n) ==> (spec_parse(line@) matches Ok(req) && state_name(req) == Some(n@) && is_cold(db@, n@)),
{
    match Request::parse(line) {
        Ok(req) => cold_target(db, &req),
        Err(_) => None,
    }
}

/// The outcome of one request line: a line that does not parse is answered
/// `Error: parser error: <message>` and changes nothing; a request is handled
/// as `handle_request` states.
pub open spec fn line_handled<H: Fn(&[u8], u32) -> u32, S: Fn(StageRequest) -> Geometry>(
    o: DatabaseView,
    f: DatabaseView,
    line: Seq<char>,
    stored: Option<Result<Vec<u8>, String>>,
    h: &H,
    s: &S,
    now: int,
    r: Outcome,
) -> bool {
    match spec_parse(line) {
        Err(m) => {
            &&& f == o
            &&& r.store is None && r.remove is None
            &&& is_error_text(r.response, "parser error: "@ + m)
        },
        Ok(req) => handled(o, f, req, stored, h, s, now, r),
    }
}

/// Answers one request line. `stored` holds what the caller read of the
/// filter that `line_cold_target` names, if it names one.
pub fn handle_line<H: Fn(&[u8], u32) -> u32, S: Fn(StageRequest) -> Geometry>(
    db: &mut FilterDatabase,
    line: &str,
    stored: Option<Result<Vec<u8>, String>>,
    hash: &H,
    sizing: &S,
    now: i64,
) -> (r: Outcome)
    requires
        old(db).wf(),
        hash_ok(hash),
        sizing_ok(sizing),
    ensures
        final(db).wf(),
        line_handled(old(db)@, final(db)@, line@, stored, hash, sizing, now as int, r),
{
    match Request::parse(line) {
        Ok(req) => handle_request(db, &req, stored, hash, sizing, now),
        Err(e) => answer(Response::Error(e.to_text())),
    }
}

/// Answers one request line at the current time, hashing keys with gxhash.
pub fn serve_line<S: Fn(StageRequest) -> Geometry>(
    db: &mut FilterDatabase,
    line: &str,
    stored: Option<Result<Vec<u8>, String>>,
    sizing: &S,
) -> (r: Outcome)
    requires
        old(db).wf(),
        sizing_ok(sizing),
    ensures
        final(db).wf(),
        exists|now: i64| line_handled(old(db)@, final(db)@, line@, stored, &key_hash, sizing, now as int, r),
{
    proof { lemma_key_hash_ok(); }
    let now = now_seconds();
    handle_line(db, line, stored, &key_hash, sizing, now)
}

/// The first pause, in seconds, after a failed accept.
pub const FIRST_BACKOFF: u64 = 1;

/// The longest pause, in seconds, after which a failed accept is given up.
pub const MAX_BACKOFF: u64 = 128;

/// What the accept loop does after a failure.
#[derive(Clone, Copy, Debug, PartialEq, Eq)]
pub enum AcceptStep {
    /// Sleep `wait` seconds, accept again, and use `next` after another failure.
    Retry { wait: u64, next: u64 },
    /// Stop and report the failure.
    GiveUp,
}

/// What to do after an accept failed while the backoff was `backoff`
/// seconds: retry after that long, doubling it, until it passes `MAX_BACKOFF`.
pub fn after_accept_failure(backoff: u64) -> (r: AcceptStep)
    ensures
        backoff > MAX_BACKOFF ==> r == AcceptStep::GiveUp,
        backoff <= MAX_BACKOFF ==> r == (AcceptStep::Retry { wait: backoff, next: (2 * backoff) as u64 }),
{
    if backoff > MAX_BACKOFF {
        AcceptStep::GiveUp
    } else {
        AcceptStep::Retry { wait: backoff, next: 2 * backoff }
    }
}

} // verus!
