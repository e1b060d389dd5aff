use vstd::prelude::*;
use vstd::utf8::encode_utf8;

use crate::aur::{strings_view, ResolveError};

verus! {

/// Request for the information of several packages; one name follows it,
/// each further name comes after `ARG_SEPARATOR`.
pub const BASE_URL: &'static str = "https://aur.archlinux.org/rpc/?v=5&type=info&arg[]=";

/// Goes before each name of a request but the first.
pub const ARG_SEPARATOR: &'static str = "&arg[]=";

/// Longest request that the service accepts, in bytes.
pub const MAX_REQUEST_LEN: usize = 4443;

/// Length of a name in bytes, as it is sent.
pub open spec fn byte_len(s: Seq<char>) -> nat {
    encode_utf8(s).len()
}

/// The names one after the other, with `ARG_SEPARATOR` between each two.
pub open spec fn joined(names: Seq<Seq<char>>) -> Seq<char>
    decreases names.len(),
{
    if names.len() == 0 {
        Seq::empty()
    } else if names.len() == 1 {
        names[0]
    } else {
        joined(names.drop_last()) + ARG_SEPARATOR@ + names.last()
    }
}

/// The length that is counted for a request asking for `names`: the base
/// and, for each name, its bytes and one separator. The request itself is
/// one separator shorter.
pub open spec fn request_len(names: Seq<Seq<char>>) -> nat
    decreases names.len(),
{
    if names.len() == 0 {
        byte_len(BASE_URL@)
    } else {
        request_len(names.drop_last()) + byte_len(names.last()) + byte_len(ARG_SEPARATOR@)
    }
}

proof fn lemma_encode_concat(a: Seq<char>, b: Seq<char>)
    ensures
        encode_utf8(a + b) == encode_utf8(a) + encode_utf8(b),
    decreases a.len(),
{
    if a.len() == 0 {
        assert(a + b =~= b);
        assert(encode_utf8(a) + encode_utf8(b) =~= encode_utf8(b));
    } else {
        assert((a + b).drop_first() =~= a.drop_first() + b);
        assert((a + b)[0] == a[0]);
        lemma_encode_concat(a.drop_first(), b);
        assert(encode_utf8(a + b) =~= encode_utf8(a) + encode_utf8(b));
    }
}

/// A name that cannot be sent even alone.
pub open spec fn is_oversized(name: Seq<char>) -> bool {
    request_len(seq![name]) > MAX_REQUEST_LEN
}

proof fn lemma_request_len_push(names: Seq<Seq<char>>, s: int, k: int)
    requires
        0 <= s <= k < names.len(),
    ensures
        request_len(names.subrange(s, k + 1)) == request_len(names.subrange(s, k)) + byte_len(
            names[k],
        ) + byte_len(ARG_SEPARATOR@),
{
    assert(names.subrange(s, k + 1).drop_last() =~= names.subrange(s, k));
}

/// The number of names, from `start` on, that the next request holds: as
/// many as fit within `max_len`, taken in order.
pub fn fitting_count(names: &Vec<String>, start: usize, max_len: usize) -> (k: usize)
    requires
        start <= names@.len(),
    ensures
        start + k <= names@.len(),
        k == 0 || request_len(strings_view(names@.subrange(start as int, start + k)))
            <= max_len,
        start + k < names@.len() ==> request_len(
            strings_view(names@.subrange(start as int, start + k + 1)),
        ) > max_len,
{
    let base_len = BASE_URL.as_bytes().len();
    let sep_len = ARG_SEPARATOR.as_bytes().len();
    if base_len > max_len {
        proof {
            if start < names@.len() {
                lemma_request_len_push(strings_view(names@), start as int, start as int);
                assert(strings_view(names@.subrange(start as int, start as int + 1))
                    =~= strings_view(names@).subrange(start as int, start as int + 1));
                assert(strings_view(names@.subrange(start as int, start as int))
                    =~= strings_view(names@).subrange(start as int, start as int));
            }
        }
        return 0;
    }
    let mut cur: usize = base_len;
    let mut i: usize = start;
    while i < names.len()
        invariant_except_break
            start <= i <= names@.len(),
            cur <= max_len,
            base_len == byte_len(BASE_URL@),
            sep_len == byte_len(ARG_SEPARATOR@),
            cur == request_len(strings_view(names@.subrange(start as int, i as int))),
        ensures
            start <= i <= names@.len(),
            i == start || request_len(strings_view(names@.subrange(start as int, i as int)))
                <= max_len,
            i < names@.len() ==> request_len(strings_view(names@.subrange(start as int, i + 1)))
                > max_len,
        decreases names@.len() - i,
    {
        let len = names[i].as_str().as_bytes().len();
        proof {
            assert(len == byte_len(names@[i as int]@));
            assert(strings_view(names@)[i as int] == names@[i as int]@);
            lemma_request_len_push(strings_view(names@), start as int, i as int);
            assert(strings_view(names@.subrange(start as int, i + 1)) =~= strings_view(
                names@,
            ).subrange(start as int, i + 1));
            assert(strings_view(names@.subrange(start as int, i as int)) =~= strings_view(
                names@,
            ).subrange(start as int, i as int));
        }
        if max_len - cur < sep_len || len > max_len - cur - sep_len {
            break;
        }
        cur = cur + len + sep_len;
        i += 1;
    }
    i - start
}

proof fn lemma_request_len_at_least_base(names: Seq<Seq<char>>)
    ensures
        request_len(names) >= byte_len(BASE_URL@),
    decreases names.len(),
{
    if names.len() > 0 {
        lemma_request_len_at_least_base(names.drop_last());
    }
}

/// A request counts at least as much as one for any single name of it.
pub(crate) proof fn lemma_request_len_single(names: Seq<Seq<char>>, i: int)
    requires
        0 <= i < names.len(),
    ensures
        request_len(names) >= request_len(seq![names[i]]),
    decreases names.len(),
{
    let one = seq![names[i]];
    assert(one.drop_last() =~= Seq::<Seq<char>>::empty());
    assert(request_len(Seq::<Seq<char>>::empty()) == byte_len(BASE_URL@));
    assert(request_len(one) == byte_len(BASE_URL@) + byte_len(names[i]) + byte_len(
        ARG_SEPARATOR@,
    ));
    lemma_request_len_at_least_base(names.drop_last());
    if i < names.len() - 1 {
        lemma_request_len_single(names.drop_last(), i);
        assert(names.drop_last()[i] == names[i]);
    }
}

/// Copies the names at positions `start` to `end`.
pub fn copy_range(names: &Vec<String>, start: usize, end: usize) -> (r: Vec<String>)
    requires
        start <= end <= names@.len(),
    ensures
        r@ == names@.subrange(start as int, end as int),
{
    let mut r: Vec<String> = Vec::new();
    let mut i: usize = start;
    while i < end
        invariant
            start <= i <= end <= names@.len(),
            r@ =~= names@.subrange(start as int, i as int),
        decreases end - i,
    {
        r.push(names[i].clone());
        i += 1;
    }
    r
}

/// The request asking for the names of `batch`.
pub fn request_url(batch: &Vec<String>) -> (r: String)
    ensures
        r@ == BASE_URL@ + joined(strings_view(batch@)),
        batch@.len() > 0 ==> byte_len(r@) + byte_len(ARG_SEPARATOR@) == request_len(
            strings_view(batch@),
        ),
{
    let mut url = BASE_URL.to_owned();
    let mut i: usize = 0;
    let ghost names = strings_view(batch@);
    proof {
        assert(names.subrange(0, 0) =~= Seq::<Seq<char>>::empty());
        assert(url@ =~= BASE_URL@ + joined(names.subrange(0, 0)));
    }
    while i < batch.len()
        invariant
            names == strings_view(batch@),
            i <= batch@.len(),
            url@ == BASE_URL@ + joined(names.subrange(0, i as int)),
            i > 0 ==> byte_len(url@) + byte_len(ARG_SEPARATOR@) == request_len(
                names.subrange(0, i as int),
            ),
        decreases batch@.len() - i,
    {
        let ghost before = url@;
        let ghost pre = names.subrange(0, i as int);
        let ghost next = names.subrange(0, i + 1);
        proof {
            assert(next.drop_last() =~= pre);
            assert(next.last() == batch@[i as int]@);
        }
        if i > 0 {
            url.append(ARG_SEPARATOR);
        }
        url.append(batch[i].as_str());
        proof {
            lemma_encode_concat(BASE_URL@, joined(pre));
            if i > 0 {
                assert(url@ =~= before + ARG_SEPARATOR@ + batch@[i as int]@);
                assert(joined(next) == joined(pre) + ARG_SEPARATOR@ + next.last());
                assert(url@ =~= BASE_URL@ + joined(next));
                lemma_encode_concat(before, ARG_SEPARATOR@);
                lemma_encode_concat(before + ARG_SEPARATOR@, batch@[i as int]@);
            } else {
                assert(pre =~= Seq::<Seq<char>>::empty());
                assert(joined(next) == next[0]);
                assert(url@ =~= BASE_URL@ + joined(next));
                lemma_encode_concat(BASE_URL@, batch@[i as int]@);
                assert(request_len(pre) == byte_len(BASE_URL@));
            }
        }
        i += 1;
    }
    proof {
        assert(names.subrange(0, batch@.len() as int) =~= names);
    }
    url
}

/// Splits `names` into consecutive batches, each as long as fits in one
/// request of at most `max_len` bytes.
pub fn pack_batches(names: &Vec<String>, max_len: usize) -> (r: Result<
    Vec<Vec<String>>,
    ResolveError,
>)
    ensures
        r is Ok <==> forall|i: int|
            0 <= i < names@.len() ==> request_len(seq![#[trigger] names@[i]@]) <= max_len,
        r matches Ok(b) ==> {
            &&& forall|j: int| 0 <= j < b@.len() ==> #[trigger] b@[j]@.len() > 0
            &&& forall|j: int|
                0 <= j < b@.len() ==> request_len(strings_view(#[trigger] b@[j]@)) <= max_len
            &&& b@.map_values(|v: Vec<String>| v@).flatten() == names@
            &&& forall|j: int|
                0 <= j < b@.len() - 1 ==> request_len(
                    strings_view(#[trigger] b@[j]@).push(b@[j + 1]@[0]@),
                ) > max_len
        },
        r matches Err(e) ==> (e matches ResolveError::NameTooLong(n) && strings_view(
            names@,
        ).contains(n@) && request_len(seq![n@]) > max_len),
{
    let mut batches: Vec<Vec<String>> = Vec::new();
    let mut start: usize = 0;
    while start < names.len()
        invariant
            start <= names@.len(),
            batches@.map_values(|v: Vec<String>| v@).flatten() == names@.subrange(0, start as int),
            forall|j: int| 0 <= j < batches@.len() ==> #[trigger] batches@[j]@.len() > 0,
            forall|j: int|
                0 <= j < batches@.len() ==> request_len(strings_view(#[trigger] batches@[j]@))
                    <= max_len,
            forall|j: int|
                0 <= j < batches@.len() - 1 ==> request_len(
                    strings_view(#[trigger] batches@[j]@).push(batches@[j + 1]@[0]@),
                ) > max_len,
            batches@.len() > 0 && start < names@.len() ==> request_len(
                strings_view(batches@.last()@).push(names@[start as int]@),
            ) > max_len,
            forall|i: int|
                0 <= i < start ==> request_len(seq![#[trigger] names@[i]@]) <= max_len,
        decreases names@.len() - start,
    {
        let k = fitting_count(names, start, max_len);
        if k == 0 {
            proof {
                let one = strings_view(names@.subrange(start as int, start + 1));
                assert(one =~= seq![names@[start as int]@]);
                assert(strings_view(names@)[start as int] == names@[start as int]@);
            }
            return Err(ResolveError::NameTooLong(names[start].clone()));
        }
        let batch = copy_range(names, start, start + k);
        let ghost old_batches = batches@;
        proof {
            assert forall|i: int| start <= i < start + k implies request_len(
                seq![#[trigger] names@[i]@],
            ) <= max_len by {
                lemma_request_len_single(strings_view(batch@), i - start);
            }
            if old_batches.len() > 0 {
                assert(batch@[0] == names@[start as int]);
            }
            if start + k < names@.len() {
                assert(strings_view(names@.subrange(start as int, start + k + 1)) =~= strings_view(
                    batch@,
                ).push(names@[start + k]@));
            }
        }
        batches.push(batch);
        proof {
            let bv = batches@.map_values(|v: Vec<String>| v@);
            assert(bv =~= old_batches.map_values(|v: Vec<String>| v@).push(batch@));
            old_batches.map_values(|v: Vec<String>| v@).lemma_flatten_push(batch@);
            assert(names@.subrange(0, start + k) =~= names@.subrange(0, start as int)
                + names@.subrange(start as int, start + k));
        }
        start = start + k;
    }
    proof {
        assert(names@.subrange(0, names@.len() as int) =~= names@);
    }
    Ok(batches)
}

} // verus!
