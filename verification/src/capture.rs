//! The captured traffic the analysis endpoints read: plaintext requests with
//! their URL and method, and plaintext responses, both keyed by request id.
use vstd::prelude::*;

verus! {

/// A request captured at the plaintext boundary.
pub struct CapturedRequest {
    pub request_id: u64,
    pub url: String,
    pub method: String,
    pub body: Vec<u8>,
}

/// A response captured at the plaintext boundary.
pub struct CapturedResponse {
    pub request_id: u64,
    pub body: Vec<u8>,
}

/// Index of the most recent request with id `id`.
pub open spec fn last_request_index(reqs: Seq<CapturedRequest>, id: u64) -> Option<int>
    decreases reqs.len(),
{
    if reqs.len() == 0 {
        None
    } else if reqs.last().request_id == id {
        Some(reqs.len() - 1)
    } else {
        last_request_index(reqs.drop_last(), id)
    }
}

/// Index of the most recent response with id `id`.
pub open spec fn last_response_index(resps: Seq<CapturedResponse>, id: u64) -> Option<int>
    decreases resps.len(),
{
    if resps.len() == 0 {
        None
    } else if resps.last().request_id == id {
        Some(resps.len() - 1)
    } else {
        last_response_index(resps.drop_last(), id)
    }
}

pub proof fn lemma_last_request_index(reqs: Seq<CapturedRequest>, id: u64)
    ensures
        last_request_index(reqs, id) matches Some(i) ==> 0 <= i < reqs.len() && reqs[i].request_id
            == id,
        last_request_index(reqs, id) is None ==> forall|i: int|
            0 <= i < reqs.len() ==> #[trigger] reqs[i].request_id != id,
    decreases reqs.len(),
{
    if reqs.len() > 0 {
        lemma_last_request_index(reqs.drop_last(), id);
        if reqs.last().request_id != id {
            assert forall|i: int| 0 <= i < reqs.len() - 1 implies reqs[i] == reqs.drop_last()[i] by {}
        }
    }
}

pub proof fn lemma_last_response_index(resps: Seq<CapturedResponse>, id: u64)
    ensures
        last_response_index(resps, id) matches Some(i) ==> 0 <= i < resps.len()
            && resps[i].request_id == id,
    decreases resps.len(),
{
    if resps.len() > 0 {
        lemma_last_response_index(resps.drop_last(), id);
    }
}

/// The index of the last captured request with id `id`, searching from the
/// end.
pub fn find_last_request(reqs: &[CapturedRequest], id: u64) -> (r: Option<usize>)
    ensures
        match r {
            Some(i) => last_request_index(reqs@, id) == Some(i as int),
            None => last_request_index(reqs@, id) is None,
        },
{
    let mut i = reqs.len();
    assert(reqs@.take(i as int) =~= reqs@);
    while i > 0
        invariant
            i <= reqs@.len(),
            last_request_index(reqs@, id) == last_request_index(reqs@.take(i as int), id),
        decreases i,
    {
        proof {
            assert(reqs@.take(i as int).drop_last() =~= reqs@.take(i - 1));
        }
        if reqs[i - 1].request_id == id {
            return Some(i - 1);
        }
        i = i - 1;
    }
    None
}

/// The most recent response with id `id`.
pub fn find_last_response(resps: &[CapturedResponse], id: u64) -> (r: Option<usize>)
    ensures
        match r {
            Some(i) => last_response_index(resps@, id) == Some(i as int),
            None => last_response_index(resps@, id) is None,
        },
{
    let mut i = resps.len();
    assert(resps@.take(i as int) =~= resps@);
    while i > 0
        invariant
            i <= resps@.len(),
            last_response_index(resps@, id) == last_response_index(resps@.take(i as int), id),
        decreases i,
    {
        proof {
            assert(resps@.take(i as int).drop_last() =~= resps@.take(i - 1));
        }
        if resps[i - 1].request_id == id {
            return Some(i - 1);
        }
        i = i - 1;
    }
    None
}

} // verus!
