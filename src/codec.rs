use vstd::prelude::*;

use crate::json::{
    char_at, chars_of, decimal, field_key, is_digit, json_string, lemma_advance,
    lemma_advance_number, lemma_advance_string, lemma_json_string_prefix_free,
    lemma_number_unique, lemma_prefix_left, number_at, parse_field_key, parse_string, parse_u32,
    push_char, write_decimal, write_json_string,
};
use crate::msg::{
    ExecuteMsg, InstantiateMsg, OutTxTracker, OutTxTrackerAllResponse, QueryMsg, TxHashList,
    WatchRequest, WatcherError, ZetaCoreMsg, ZetaCoreQuery,
};

verus! {

pub open spec fn chain_key() -> Seq<char> {
    "chain"@
}

pub open spec fn nonce_key() -> Seq<char> {
    "nonce"@
}

pub open spec fn tx_hash_key() -> Seq<char> {
    "tx_hash"@
}

pub open spec fn wr_tail_tx_hash(v: WatchRequest) -> Seq<char> {
    json_string(v.tx_hash) + seq!['}']
}

pub open spec fn wr_tail_tx_hash_key(v: WatchRequest) -> Seq<char> {
    field_key(tx_hash_key()) + wr_tail_tx_hash(v)
}

pub open spec fn wr_tail_second_comma(v: WatchRequest) -> Seq<char> {
    seq![','] + wr_tail_tx_hash_key(v)
}

pub open spec fn wr_tail_nonce(v: WatchRequest) -> Seq<char> {
    decimal(v.nonce as nat) + wr_tail_second_comma(v)
}

pub open spec fn wr_tail_nonce_key(v: WatchRequest) -> Seq<char> {
    field_key(nonce_key()) + wr_tail_nonce(v)
}

pub open spec fn wr_tail_first_comma(v: WatchRequest) -> Seq<char> {
    seq![','] + wr_tail_nonce_key(v)
}

pub open spec fn wr_tail_chain(v: WatchRequest) -> Seq<char> {
    json_string(v.chain) + wr_tail_first_comma(v)
}

pub open spec fn wr_tail_chain_key(v: WatchRequest) -> Seq<char> {
    field_key(chain_key()) + wr_tail_chain(v)
}

/// The fields of a watch request as a JSON object, in declaration order and without
/// white space: `{"chain":<string>,"nonce":<number>,"tx_hash":<string>}`.
pub open spec fn watch_request_json(v: WatchRequest) -> Seq<char> {
    seq!['{'] + wr_tail_chain_key(v)
}

/// The opening of an object whose single key is `t`: `{"<t>":`.
pub open spec fn object_head(t: Seq<char>) -> Seq<char> {
    seq!['{'] + field_key(t)
}

/// A value of the variant `t` of a message enum: `{"<t>":<body>}`.
pub open spec fn tagged(t: Seq<char>, body: Seq<char>) -> Seq<char> {
    object_head(t) + (body + seq!['}'])
}

/// The watch request that `p` encodes under the variant `t`, if any.
pub open spec fn decode_tagged_watch_request(t: Seq<char>, p: Seq<char>) -> Option<WatchRequest> {
    if exists|v: WatchRequest| #[trigger] tagged(t, watch_request_json(v)) == p {
        Some(choose|v: WatchRequest| #[trigger] tagged(t, watch_request_json(v)) == p)
    } else {
        None
    }
}

/// The error names the variant `t` as unknown.
pub open spec fn names_unknown_variant(e: WatcherError, t: Seq<char>) -> bool {
    match e {
        WatcherError::UnknownVariant(s) => s@ == t,
        _ => false,
    }
}

/// An error that decoding reports.
pub open spec fn is_schema_error(e: WatcherError) -> bool {
    e is Malformed || e is UnknownVariant
}

proof fn lemma_strip(a: Seq<char>, x: Seq<char>, y: Seq<char>)
    requires
        a + x == a + y,
    ensures
        x == y,
{
    assert(x =~= (a + x).skip(a.len() as int));
    assert(y =~= (a + y).skip(a.len() as int));
}

/// No two watch requests are written alike, whatever follows them.
#[verifier::spinoff_prover]
#[verifier::rlimit(100)]
pub proof fn lemma_watch_request_json_injective(
    a: WatchRequest,
    b: WatchRequest,
    x: Seq<char>,
    y: Seq<char>,
)
    requires
        watch_request_json(a) + x == watch_request_json(b) + y,
    ensures
        a == b,
        x == y,
{
    let h = seq!['{'] + field_key(chain_key());
    assert(watch_request_json(a) + x =~= h + (json_string(a.chain) + (wr_tail_first_comma(a) + x)));
    assert(watch_request_json(b) + y =~= h + (json_string(b.chain) + (wr_tail_first_comma(b) + y)));
    lemma_strip(h, json_string(a.chain) + (wr_tail_first_comma(a) + x),
        json_string(b.chain) + (wr_tail_first_comma(b) + y));
    lemma_json_string_prefix_free(a.chain, b.chain, wr_tail_first_comma(a) + x,
        wr_tail_first_comma(b) + y);
    let m = seq![','] + field_key(nonce_key());
    let ra = wr_tail_second_comma(a) + x;
    let rb = wr_tail_second_comma(b) + y;
    assert(wr_tail_first_comma(a) + x =~= m + (decimal(a.nonce as nat) + ra));
    assert(wr_tail_first_comma(b) + y =~= m + (decimal(b.nonce as nat) + rb));
    lemma_strip(m, decimal(a.nonce as nat) + ra, decimal(b.nonce as nat) + rb);
    let q = decimal(a.nonce as nat) + ra;
    assert(ra[0] == ',' && rb[0] == ',');
    assert(q[decimal(a.nonce as nat).len() as int] == ',');
    assert(q[decimal(b.nonce as nat).len() as int] == ',') by {
        assert(q =~= decimal(b.nonce as nat) + rb);
    }
    assert(decimal(a.nonce as nat).is_prefix_of(q.skip(0))) by {
        assert(q.skip(0) =~= q);
        lemma_prefix_left(decimal(a.nonce as nat), ra, q);
    }
    assert(decimal(b.nonce as nat).is_prefix_of(q.skip(0))) by {
        assert(q.skip(0) =~= q);
        assert(q =~= decimal(b.nonce as nat) + rb);
        lemma_prefix_left(decimal(b.nonce as nat), rb, q);
    }
    assert(number_at(q, 0, a.nonce as nat));
    assert(number_at(q, 0, b.nonce as nat));
    lemma_number_unique(q, 0, a.nonce as nat, b.nonce as nat);
    lemma_strip(decimal(a.nonce as nat), ra, rb);
    let k = seq![','] + field_key(tx_hash_key());
    assert(ra =~= k + (json_string(a.tx_hash) + (seq!['}'] + x)));
    assert(rb =~= k + (json_string(b.tx_hash) + (seq!['}'] + y)));
    lemma_strip(k, json_string(a.tx_hash) + (seq!['}'] + x), json_string(b.tx_hash) + (
    seq!['}'] + y));
    lemma_json_string_prefix_free(a.tx_hash, b.tx_hash, seq!['}'] + x, seq!['}'] + y);
    lemma_strip(seq!['}'], x, y);
}

/// No two values of one variant are written alike.
pub proof fn lemma_tagged_watch_request_injective(t: Seq<char>, a: WatchRequest, b: WatchRequest)
    requires
        tagged(t, watch_request_json(a)) == tagged(t, watch_request_json(b)),
    ensures
        a == b,
{
    lemma_strip(object_head(t), watch_request_json(a) + seq!['}'], watch_request_json(b) + seq![
        '}',
    ]);
    lemma_watch_request_json_injective(a, b, seq!['}'], seq!['}']);
}


pub open spec fn watch_request_of(chain: Seq<char>, nonce: u32, tx_hash: Seq<char>) -> WatchRequest {
    WatchRequest { chain, nonce, tx_hash }
}

proof fn lemma_watch_request_pieces(
    q: Seq<char>,
    w: WatchRequest,
    i: int,
    i1: int,
    i2: int,
    i3: int,
    i4: int,
    i5: int,
    i6: int,
    i7: int,
    i8: int,
    i9: int,
    j: int,
)
    requires
        0 <= i < i1 <= i2 <= i3 < i4 <= i5 <= i6 < i7 <= i8 <= i9 < j <= q.len(),
        i1 == i + 1 && i4 == i3 + 1 && i7 == i6 + 1 && j == i9 + 1,
        q[i] == '{' && q[i3] == ',' && q[i6] == ',' && q[i9] == '}',
        q.subrange(i1, i2) == field_key(chain_key()),
        q.subrange(i2, i3) == json_string(w.chain),
        q.subrange(i4, i5) == field_key(nonce_key()),
        q.subrange(i5, i6) == decimal(w.nonce as nat),
        q.subrange(i7, i8) == field_key(tx_hash_key()),
        q.subrange(i8, i9) == json_string(w.tx_hash),
    ensures
        q.subrange(i, j) == watch_request_json(w),
{
    assert(q.subrange(i9, j) =~= seq!['}']);
    assert(q.subrange(i8, j) =~= wr_tail_tx_hash(w));
    assert(q.subrange(i7, j) =~= q.subrange(i7, i8) + q.subrange(i8, j));
    assert(q.subrange(i6, j) =~= q.subrange(i6, i7) + q.subrange(i7, j));
    assert(q.subrange(i6, i7) =~= seq![',']);
    assert(q.subrange(i5, j) =~= q.subrange(i5, i6) + q.subrange(i6, j));
    assert(q.subrange(i4, j) =~= q.subrange(i4, i5) + q.subrange(i5, j));
    assert(q.subrange(i3, j) =~= q.subrange(i3, i4) + q.subrange(i4, j));
    assert(q.subrange(i3, i4) =~= seq![',']);
    assert(q.subrange(i2, j) =~= q.subrange(i2, i3) + q.subrange(i3, j));
    assert(q.subrange(i1, j) =~= q.subrange(i1, i2) + q.subrange(i2, j));
    assert(q.subrange(i, j) =~= q.subrange(i, i1) + q.subrange(i1, j));
    assert(q.subrange(i, i1) =~= seq!['{']);
}

/// Reads a watch request object at `i`.
#[verifier::rlimit(40)]
fn parse_watch_request(p: &Vec<char>, i: usize) -> (r: Option<(String, u32, String, usize)>)
    requires
        i <= p@.len(),
    ensures
        match r {
            Some((c, n, t, j)) => {
                &&& i < j <= p@.len()
                &&& p@.subrange(i as int, j as int) == watch_request_json(
                    watch_request_of(c@, n, t@),
                )
                &&& forall|v: WatchRequest| #[trigger]
                    watch_request_json(v).is_prefix_of(p@.skip(i as int)) ==> v == watch_request_of(
                        c@,
                        n,
                        t@,
                    )
            },
            None => forall|v: WatchRequest| !(#[trigger] watch_request_json(v)).is_prefix_of(
                p@.skip(i as int),
            ),
        },
{
    let ghost q = p@;
    let len = p.len();
    if !char_at(p, i, '{') {
        assert forall|v: WatchRequest| !(#[trigger] watch_request_json(v)).is_prefix_of(q.skip(i as int)) by {
            if watch_request_json(v).is_prefix_of(q.skip(i as int)) {
                assert(watch_request_json(v)[0] == q.skip(i as int)[0]);
            }
        }
        return None;
    }
    let i1 = i + 1;
    assert forall|v: WatchRequest| #[trigger] watch_request_json(v).is_prefix_of(q.skip(i as int)) implies wr_tail_chain_key(v).is_prefix_of(q.skip(i1 as int)) by {
        assert(q.subrange(i as int, i1 as int) =~= seq!['{']);
        lemma_advance(q, i as int, i1 as int, seq!['{'], wr_tail_chain_key(v));
    }
    let i2 = match parse_field_key(p, i1, "chain") {
        Some(j) => j,
        None => {
            assert forall|v: WatchRequest| !(#[trigger] watch_request_json(v)).is_prefix_of(q.skip(i as int)) by {
                if watch_request_json(v).is_prefix_of(q.skip(i as int)) {
                    lemma_prefix_left(field_key(chain_key()), wr_tail_chain(v), q.skip(i1 as int));
                }
            }
            return None;
        },
    };
    assert forall|v: WatchRequest| #[trigger] watch_request_json(v).is_prefix_of(q.skip(i as int)) implies wr_tail_chain(v).is_prefix_of(q.skip(i2 as int)) by {
        lemma_advance(q, i1 as int, i2 as int, field_key(chain_key()), wr_tail_chain(v));
    }
    let (chain, i3) = match parse_string(p, i2) {
        Some(x) => x,
        None => {
            assert forall|v: WatchRequest| !(#[trigger] watch_request_json(v)).is_prefix_of(q.skip(i as int)) by {
                if watch_request_json(v).is_prefix_of(q.skip(i as int)) {
                    lemma_prefix_left(json_string(v.chain), wr_tail_first_comma(v), q.skip(i2 as int));
                }
            }
            return None;
        },
    };
    assert forall|v: WatchRequest| #[trigger] watch_request_json(v).is_prefix_of(q.skip(i as int)) implies v.chain == chain@ && wr_tail_first_comma(v).is_prefix_of(q.skip(i3 as int)) by {
        lemma_advance_string(q, i2 as int, i3 as int, chain@, v.chain, wr_tail_first_comma(v));
    }
    if !char_at(p, i3, ',') {
        assert forall|v: WatchRequest| !(#[trigger] watch_request_json(v)).is_prefix_of(q.skip(i as int)) by {
            if watch_request_json(v).is_prefix_of(q.skip(i as int)) {
                assert(wr_tail_first_comma(v)[0] == q.skip(i3 as int)[0]);
            }
        }
        return None;
    }
    let i4 = i3 + 1;
    assert forall|v: WatchRequest| #[trigger] watch_request_json(v).is_prefix_of(q.skip(i as int)) implies wr_tail_nonce_key(v).is_prefix_of(q.skip(i4 as int)) by {
        assert(q.subrange(i3 as int, i4 as int) =~= seq![',']);
        lemma_advance(q, i3 as int, i4 as int, seq![','], wr_tail_nonce_key(v));
    }
    let i5 = match parse_field_key(p, i4, "nonce") {
        Some(j) => j,
        None => {
            assert forall|v: WatchRequest| !(#[trigger] watch_request_json(v)).is_prefix_of(q.skip(i as int)) by {
                if watch_request_json(v).is_prefix_of(q.skip(i as int)) {
                    lemma_prefix_left(field_key(nonce_key()), wr_tail_nonce(v), q.skip(i4 as int));
                }
            }
            return None;
        },
    };
    assert forall|v: WatchRequest| #[trigger] watch_request_json(v).is_prefix_of(q.skip(i as int)) implies wr_tail_nonce(v).is_prefix_of(q.skip(i5 as int)) by {
        lemma_advance(q, i4 as int, i5 as int, field_key(nonce_key()), wr_tail_nonce(v));
    }
    let (nonce, i6) = match parse_u32(p, i5) {
        Some(x) => x,
        None => {
            assert forall|v: WatchRequest| !(#[trigger] watch_request_json(v)).is_prefix_of(q.skip(i as int)) by {
                if watch_request_json(v).is_prefix_of(q.skip(i as int)) {
                    lemma_number_before(q, i5 as int, v.nonce as nat, wr_tail_second_comma(v));
                }
            }
            return None;
        },
    };
    assert forall|v: WatchRequest| #[trigger] watch_request_json(v).is_prefix_of(q.skip(i as int)) implies v.nonce == nonce && wr_tail_second_comma(v).is_prefix_of(q.skip(i6 as int)) by {
        assert(wr_tail_second_comma(v)[0] == ',');
        lemma_advance_number(q, i5 as int, i6 as int, nonce as nat, v.nonce as nat, wr_tail_second_comma(v));
    }
    if !char_at(p, i6, ',') {
        assert forall|v: WatchRequest| !(#[trigger] watch_request_json(v)).is_prefix_of(q.skip(i as int)) by {
            if watch_request_json(v).is_prefix_of(q.skip(i as int)) {
                assert(wr_tail_second_comma(v)[0] == q.skip(i6 as int)[0]);
            }
        }
        return None;
    }
    let i7 = i6 + 1;
    assert forall|v: WatchRequest| #[trigger] watch_request_json(v).is_prefix_of(q.skip(i as int)) implies wr_tail_tx_hash_key(v).is_prefix_of(q.skip(i7 as int)) by {
        assert(q.subrange(i6 as int, i7 as int) =~= seq![',']);
        lemma_advance(q, i6 as int, i7 as int, seq![','], wr_tail_tx_hash_key(v));
    }
    let i8 = match parse_field_key(p, i7, "tx_hash") {
        Some(j) => j,
        None => {
            assert forall|v: WatchRequest| !(#[trigger] watch_request_json(v)).is_prefix_of(q.skip(i as int)) by {
                if watch_request_json(v).is_prefix_of(q.skip(i as int)) {
                    lemma_prefix_left(field_key(tx_hash_key()), wr_tail_tx_hash(v), q.skip(i7 as int));
                }
            }
            return None;
        },
    };
    assert forall|v: WatchRequest| #[trigger] watch_request_json(v).is_prefix_of(q.skip(i as int)) implies wr_tail_tx_hash(v).is_prefix_of(q.skip(i8 as int)) by {
        lemma_advance(q, i7 as int, i8 as int, field_key(tx_hash_key()), wr_tail_tx_hash(v));
    }
    let (tx_hash, i9) = match parse_string(p, i8) {
        Some(x) => x,
        None => {
            assert forall|v: WatchRequest| !(#[trigger] watch_request_json(v)).is_prefix_of(q.skip(i as int)) by {
                if watch_request_json(v).is_prefix_of(q.skip(i as int)) {
                    lemma_prefix_left(json_string(v.tx_hash), seq!['}'], q.skip(i8 as int));
                }
            }
            return None;
        },
    };
    assert forall|v: WatchRequest| #[trigger] watch_request_json(v).is_prefix_of(q.skip(i as int)) implies v.tx_hash == tx_hash@ && seq!['}'].is_prefix_of(q.skip(i9 as int)) by {
        lemma_advance_string(q, i8 as int, i9 as int, tx_hash@, v.tx_hash, seq!['}']);
    }
    if !char_at(p, i9, '}') {
        assert forall|v: WatchRequest| !(#[trigger] watch_request_json(v)).is_prefix_of(q.skip(i as int)) by {
            if watch_request_json(v).is_prefix_of(q.skip(i as int)) {
                assert(seq!['}'][0] == q.skip(i9 as int)[0]);
            }
        }
        return None;
    }
    let j = i9 + 1;
    let ghost w = watch_request_of(chain@, nonce, tx_hash@);
    proof {
        lemma_watch_request_pieces(q, w, i as int, i1 as int, i2 as int, i3 as int, i4 as int,
            i5 as int, i6 as int, i7 as int, i8 as int, i9 as int, j as int);
    }
    Some((chain, nonce, tx_hash, j))
}

proof fn lemma_number_before(p: Seq<char>, i: int, m: nat, b: Seq<char>)
    requires
        0 <= i <= p.len(),
        (decimal(m) + b).is_prefix_of(p.skip(i)),
        b.len() > 0,
        b[0] == ',',
    ensures
        number_at(p, i, m),
{
    lemma_prefix_left(decimal(m), b, p.skip(i));
    assert((decimal(m) + b)[decimal(m).len() as int] == b[0]);
    assert(p.skip(i)[decimal(m).len() as int] == p[i + decimal(m).len()]);
}


/// What a failed read of an object head reports: an unknown variant that does
/// stand there, or a malformed payload where no head stands.
pub open spec fn head_error(e: WatcherError, tag: Seq<char>, p: Seq<char>) -> bool {
    match e {
        WatcherError::UnknownVariant(s) => object_head(s@).is_prefix_of(p) && s@ != tag,
        WatcherError::Malformed {  } => forall|t: Seq<char>| !(#[trigger] object_head(t)).is_prefix_of(p),
        _ => false,
    }
}

proof fn lemma_object_head_unique(p: Seq<char>, a: Seq<char>, b: Seq<char>)
    requires
        object_head(a).is_prefix_of(p),
        object_head(b).is_prefix_of(p),
    ensures
        a == b,
{
    let la = json_string(a).len() as int;
    assert(p.skip(0) =~= p);
    assert(object_head(b) =~= seq!['{'] + (json_string(b) + seq![':']));
    assert(p.subrange(0, 1) =~= seq!['{']);
    lemma_advance(p, 0, 1, seq!['{'], json_string(b) + seq![':']);
    assert(p.subrange(1, 1 + la) =~= json_string(a)) by {
        assert forall|k: int| 0 <= k < la implies p.subrange(1, 1 + la)[k] == json_string(a)[k] by {
            assert(object_head(a)[1 + k] == json_string(a)[k]);
            assert(p.subrange(0, object_head(a).len() as int)[1 + k] == p[1 + k]);
        }
    }
    lemma_advance_string(p, 1, 1 + la, a, b, seq![':']);
}

proof fn lemma_head_of_tagged(t: Seq<char>, body: Seq<char>)
    ensures
        object_head(t).is_prefix_of(tagged(t, body)),
{
    lemma_prefix_left(object_head(t), body + seq!['}'], tagged(t, body));
}

/// Reads `{"<tag>":` at the start of `p`.
fn parse_object_head(p: &Vec<char>, tag: &str) -> (r: Result<usize, WatcherError>)
    ensures
        match r {
            Ok(j) => j <= p@.len() && p@.subrange(0, j as int) == object_head(tag@),
            Err(e) => head_error(e, tag@, p@),
        },
{
    let ghost q = p@;
    if !char_at(p, 0, '{') {
        assert forall|t: Seq<char>| !(#[trigger] object_head(t)).is_prefix_of(q) by {
            if object_head(t).is_prefix_of(q) {
                assert(object_head(t)[0] == q[0]);
            }
        }
        return Err(WatcherError::Malformed {  });
    }
    assert forall|t: Seq<char>| #[trigger] object_head(t).is_prefix_of(q) implies (json_string(t) + seq![':']).is_prefix_of(q.skip(1)) by {
        assert(q.skip(0) =~= q);
        assert(object_head(t) =~= seq!['{'] + (json_string(t) + seq![':']));
        assert(q.subrange(0, 1) =~= seq!['{']);
        lemma_advance(q, 0, 1, seq!['{'], json_string(t) + seq![':']);
    }
    let (s, j) = match parse_string(p, 1) {
        Some(x) => x,
        None => {
            assert forall|t: Seq<char>| !(#[trigger] object_head(t)).is_prefix_of(q) by {
                if object_head(t).is_prefix_of(q) {
                    lemma_prefix_left(json_string(t), seq![':'], q.skip(1));
                }
            }
            return Err(WatcherError::Malformed {  });
        },
    };
    let len = p.len();
    if !char_at(p, j, ':') {
        assert forall|t: Seq<char>| !(#[trigger] object_head(t)).is_prefix_of(q) by {
            if object_head(t).is_prefix_of(q) {
                lemma_advance_string(q, 1, j as int, s@, t, seq![':']);
                assert(seq![':'][0] == q.skip(j as int)[0]);
            }
        }
        return Err(WatcherError::Malformed {  });
    }
    assert(q.subrange(0, j + 1) =~= seq!['{'] + q.subrange(1, j as int) + seq![':']);
    assert(object_head(s@) =~= seq!['{'] + json_string(s@) + seq![':']);
    let key = String::from_str(tag);
    if s != key {
        assert(object_head(s@).is_prefix_of(q));
        return Err(WatcherError::UnknownVariant(s));
    }
    Ok(j + 1)
}

/// Reads a watch request sent as the variant `tag` of a message enum.
fn decode_watch_request_payload(payload: &str, tag: &str) -> (r: Result<
    (String, u32, String),
    WatcherError,
>)
    ensures
        match r {
            Ok((c, n, t)) => decode_tagged_watch_request(tag@, payload@) == Some(
                watch_request_of(c@, n, t@),
            ),
            Err(e) => decode_tagged_watch_request(tag@, payload@) is None && is_schema_error(e),
        },
        forall|t: Seq<char>| #[trigger]
            object_head(t).is_prefix_of(payload@) && t != tag@ ==> r is Err && names_unknown_variant(
                r->Err_0,
                t,
            ),
{
    let p = chars_of(payload);
    let ghost q = p@;
    let j = match parse_object_head(&p, tag) {
        Ok(j) => j,
        Err(e) => {
            proof {
                assert forall|v: WatchRequest| #[trigger] tagged(tag@, watch_request_json(v)) != q by {
                    lemma_head_of_tagged(tag@, watch_request_json(v));
                    if tagged(tag@, watch_request_json(v)) == q {
                        if e is UnknownVariant {
                            lemma_object_head_unique(q, tag@, e->UnknownVariant_0@);
                        }
                    }
                }
                assert forall|t: Seq<char>| #[trigger] object_head(t).is_prefix_of(q) && t != tag@ implies names_unknown_variant(e, t) by {
                    lemma_object_head_unique(q, t, e->UnknownVariant_0@);
                }
            }
            return Err(e);
        },
    };
    proof {
        assert(object_head(tag@).is_prefix_of(q)) by {
            assert(q.subrange(0, object_head(tag@).len() as int) == object_head(tag@));
        }
        assert forall|t: Seq<char>| #[trigger] object_head(t).is_prefix_of(q) implies t == tag@ by {
            lemma_object_head_unique(q, t, tag@);
        }
        assert forall|v: WatchRequest| #[trigger] tagged(tag@, watch_request_json(v)) == q implies (
        watch_request_json(v) + seq!['}']).is_prefix_of(q.skip(j as int)) by {
            assert(q.skip(0) =~= q);
            lemma_advance(q, 0, j as int, object_head(tag@), watch_request_json(v) + seq!['}']);
        }
    }
    let (c, n, t, k) = match parse_watch_request(&p, j) {
        Some(x) => x,
        None => {
            proof {
                assert forall|v: WatchRequest| #[trigger] tagged(tag@, watch_request_json(v)) != q by {
                    if tagged(tag@, watch_request_json(v)) == q {
                        lemma_prefix_left(watch_request_json(v), seq!['}'], q.skip(j as int));
                    }
                }
            }
            return Err(WatcherError::Malformed {  });
        },
    };
    let ghost w = watch_request_of(c@, n, t@);
    let len = p.len();
    if !(char_at(&p, k, '}') && k + 1 == len) {
        proof {
            assert forall|v: WatchRequest| #[trigger] tagged(tag@, watch_request_json(v)) != q by {
                if tagged(tag@, watch_request_json(v)) == q {
                    lemma_prefix_left(watch_request_json(v), seq!['}'], q.skip(j as int));
                    assert(v == w);
                    assert(q =~= q.subrange(0, j as int) + q.subrange(j as int, k as int) + seq!['}']);
                }
            }
        }
        return Err(WatcherError::Malformed {  });
    }
    proof {
        assert(q =~= q.subrange(0, j as int) + (q.subrange(j as int, k as int) + q.subrange(k as int, len as int)));
        assert(q.subrange(k as int, len as int) =~= seq!['}']);
        assert(tagged(tag@, watch_request_json(w)) == q);
        let v = choose|v: WatchRequest| #[trigger] tagged(tag@, watch_request_json(v)) == q;
        lemma_tagged_watch_request_injective(tag@, v, w);
    }
    Ok((c, n, t))
}

fn write_watch_request(out: &mut String, chain: &String, nonce: u32, tx_hash: &String)
    ensures
        final(out)@ == old(out)@ + watch_request_json(watch_request_of(chain@, nonce, tx_hash@)),
{
    let ghost start = out@;
    push_char(out, '{');
    write_json_string(out, "chain");
    push_char(out, ':');
    write_json_string(out, chain.as_str());
    push_char(out, ',');
    write_json_string(out, "nonce");
    push_char(out, ':');
    write_decimal(out, nonce);
    push_char(out, ',');
    write_json_string(out, "tx_hash");
    push_char(out, ':');
    write_json_string(out, tx_hash.as_str());
    push_char(out, '}');
    assert(out@ =~= start + watch_request_json(watch_request_of(chain@, nonce, tx_hash@)));
}

fn write_object_head(out: &mut String, tag: &str)
    ensures
        final(out)@ == old(out)@ + object_head(tag@),
{
    let ghost start = out@;
    push_char(out, '{');
    write_json_string(out, tag);
    push_char(out, ':');
    assert(out@ =~= start + object_head(tag@));
}

/// The wire name of the watch-list variant.
pub open spec fn add_to_watch_list_tag() -> Seq<char> {
    "add_to_watch_list"@
}

/// The wire name of the tracker query variant.
pub open spec fn out_tx_tracker_all_tag() -> Seq<char> {
    "out_tx_tracker_all"@
}

/// How a watch-list command, or the message forwarded for it, is written.
pub open spec fn add_to_watch_list_json(v: WatchRequest) -> Seq<char> {
    tagged(add_to_watch_list_tag(), watch_request_json(v))
}

/// How the tracker query is written: `{"out_tx_tracker_all":{}}`.
pub open spec fn out_tx_tracker_all_json() -> Seq<char> {
    tagged(out_tx_tracker_all_tag(), seq!['{', '}'])
}

/// How the empty configuration is written: `{}`.
pub open spec fn instantiate_json() -> Seq<char> {
    seq!['{', '}']
}

/// The watch-list command that `p` encodes, if any.
pub open spec fn decode_add_to_watch_list(p: Seq<char>) -> Option<WatchRequest> {
    decode_tagged_watch_request(add_to_watch_list_tag(), p)
}

/// Encodes a command.
pub fn encode_execute_msg(msg: &ExecuteMsg) -> (r: String)
    ensures
        r@ == add_to_watch_list_json(msg@),
{
    let mut out = String::new();
    match msg {
        ExecuteMsg::AddToWatchList { chain, nonce, tx_hash } => {
            write_object_head(&mut out, "add_to_watch_list");
            write_watch_request(&mut out, chain, *nonce, tx_hash);
        },
    }
    push_char(&mut out, '}');
    assert(out@ =~= add_to_watch_list_json(msg@));
    out
}

/// Decodes a command: it succeeds exactly on the encoding of a command.
pub fn decode_execute_msg(payload: &str) -> (r: Result<ExecuteMsg, WatcherError>)
    ensures
        match r {
            Ok(m) => decode_add_to_watch_list(payload@) == Some(m@),
            Err(e) => decode_add_to_watch_list(payload@) is None && is_schema_error(e),
        },
        forall|t: Seq<char>| #[trigger]
            object_head(t).is_prefix_of(payload@) && t != add_to_watch_list_tag() ==> r is Err
                && names_unknown_variant(r->Err_0, t),
{
    match decode_watch_request_payload(payload, "add_to_watch_list") {
        Ok((chain, nonce, tx_hash)) => Ok(ExecuteMsg::AddToWatchList { chain, nonce, tx_hash }),
        Err(e) => Err(e),
    }
}

/// Encodes a message for the core module.
pub fn encode_core_msg(msg: &ZetaCoreMsg) -> (r: String)
    ensures
        r@ == add_to_watch_list_json(msg@),
{
    let mut out = String::new();
    match msg {
        ZetaCoreMsg::AddToWatchList { chain, nonce, tx_hash } => {
            write_object_head(&mut out, "add_to_watch_list");
            write_watch_request(&mut out, chain, *nonce, tx_hash);
        },
    }
    push_char(&mut out, '}');
    assert(out@ =~= add_to_watch_list_json(msg@));
    out
}

/// Decodes a message for the core module: it succeeds exactly on the encoding of
/// such a message.
pub fn decode_core_msg(payload: &str) -> (r: Result<ZetaCoreMsg, WatcherError>)
    ensures
        match r {
            Ok(m) => decode_add_to_watch_list(payload@) == Some(m@),
            Err(e) => decode_add_to_watch_list(payload@) is None && is_schema_error(e),
        },
        forall|t: Seq<char>| #[trigger]
            object_head(t).is_prefix_of(payload@) && t != add_to_watch_list_tag() ==> r is Err
                && names_unknown_variant(r->Err_0, t),
{
    match decode_watch_request_payload(payload, "add_to_watch_list") {
        Ok((chain, nonce, tx_hash)) => Ok(ZetaCoreMsg::AddToWatchList { chain, nonce, tx_hash }),
        Err(e) => Err(e),
    }
}

/// Reads `{"out_tx_tracker_all":{}}` and nothing else.
fn decode_out_tx_tracker_all(payload: &str) -> (r: Result<(), WatcherError>)
    ensures
        r is Ok <==> payload@ == out_tx_tracker_all_json(),
        r is Err ==> is_schema_error(r->Err_0),
        forall|t: Seq<char>| #[trigger]
            object_head(t).is_prefix_of(payload@) && t != out_tx_tracker_all_tag() ==> r is Err
                && names_unknown_variant(r->Err_0, t),
{
    let p = chars_of(payload);
    let ghost q = p@;
    let ghost tag = out_tx_tracker_all_tag();
    let j = match parse_object_head(&p, "out_tx_tracker_all") {
        Ok(j) => j,
        Err(e) => {
            proof {
                lemma_head_of_tagged(tag, seq!['{', '}']);
                if out_tx_tracker_all_json() == q && e is UnknownVariant {
                    lemma_object_head_unique(q, tag, e->UnknownVariant_0@);
                }
                assert forall|t: Seq<char>| #[trigger] object_head(t).is_prefix_of(q) && t != tag implies names_unknown_variant(e, t) by {
                    lemma_object_head_unique(q, t, e->UnknownVariant_0@);
                }
            }
            return Err(e);
        },
    };
    proof {
        assert(object_head(tag).is_prefix_of(q)) by {
            assert(q.subrange(0, object_head(tag).len() as int) == object_head(tag));
        }
        assert forall|t: Seq<char>| #[trigger] object_head(t).is_prefix_of(q) implies t == tag by {
            lemma_object_head_unique(q, t, tag);
        }
    }
    let len = p.len();
    if !(char_at(&p, j, '{') && char_at(&p, j + 1, '}') && char_at(&p, j + 2, '}') && j + 3 == len) {
        proof {
            if out_tx_tracker_all_json() == q {
                assert(q =~= object_head(tag) + seq!['{', '}', '}']);
                assert(q.subrange(0, j as int) == object_head(tag));
                assert(q[j as int] == '{' && q[j + 1] == '}' && q[j + 2] == '}');
            }
        }
        return Err(WatcherError::Malformed {  });
    }
    assert(q =~= q.subrange(0, j as int) + seq!['{', '}', '}']);
    assert(q =~= out_tx_tracker_all_json());
    Ok(())
}

/// Encodes a query.
pub fn encode_query_msg(msg: &QueryMsg) -> (r: String)
    ensures
        r@ == out_tx_tracker_all_json(),
{
    let mut out = String::new();
    write_object_head(&mut out, "out_tx_tracker_all");
    push_char(&mut out, '{');
    push_char(&mut out, '}');
    push_char(&mut out, '}');
    assert(out@ =~= out_tx_tracker_all_json());
    out
}

/// Decodes a query: it succeeds exactly on the encoding of a query.
pub fn decode_query_msg(payload: &str) -> (r: Result<QueryMsg, WatcherError>)
    ensures
        r is Ok <==> payload@ == out_tx_tracker_all_json(),
        r is Err ==> is_schema_error(r->Err_0),
        forall|t: Seq<char>| #[trigger]
            object_head(t).is_prefix_of(payload@) && t != out_tx_tracker_all_tag() ==> r is Err
                && names_unknown_variant(r->Err_0, t),
{
    match decode_out_tx_tracker_all(payload) {
        Ok(()) => Ok(QueryMsg::OutTxTrackerAll {  }),
        Err(e) => Err(e),
    }
}

/// Encodes a query for the core module.
pub fn encode_core_query(msg: &ZetaCoreQuery) -> (r: String)
    ensures
        r@ == out_tx_tracker_all_json(),
{
    let mut out = String::new();
    write_object_head(&mut out, "out_tx_tracker_all");
    push_char(&mut out, '{');
    push_char(&mut out, '}');
    push_char(&mut out, '}');
    assert(out@ =~= out_tx_tracker_all_json());
    out
}

/// Decodes a query for the core module: it succeeds exactly on the encoding of
/// such a query.
pub fn decode_core_query(payload: &str) -> (r: Result<ZetaCoreQuery, WatcherError>)
    ensures
        r is Ok <==> payload@ == out_tx_tracker_all_json(),
        r is Err ==> is_schema_error(r->Err_0),
        forall|t: Seq<char>| #[trigger]
            object_head(t).is_prefix_of(payload@) && t != out_tx_tracker_all_tag() ==> r is Err
                && names_unknown_variant(r->Err_0, t),
{
    match decode_out_tx_tracker_all(payload) {
        Ok(()) => Ok(ZetaCoreQuery::OutTxTrackerAll {  }),
        Err(e) => Err(e),
    }
}

/// Encodes the empty configuration.
pub fn encode_instantiate_msg(msg: &InstantiateMsg) -> (r: String)
    ensures
        r@ == instantiate_json(),
{
    let mut out = String::new();
    push_char(&mut out, '{');
    push_char(&mut out, '}');
    assert(out@ =~= instantiate_json());
    out
}

/// Decodes the empty configuration: `{}` and nothing else.
pub fn decode_instantiate_msg(payload: &str) -> (r: Result<InstantiateMsg, WatcherError>)
    ensures
        r is Ok <==> payload@ == instantiate_json(),
        r is Err ==> r->Err_0 is Malformed,
{
    let p = chars_of(payload);
    if p.len() == 2 && p[0] == '{' && p[1] == '}' {
        assert(p@ =~= instantiate_json());
        Ok(InstantiateMsg {  })
    } else {
        Err(WatcherError::Malformed {  })
    }
}


/// Decoding the encoding of a watch-list command gives that command back.
pub proof fn law_round_trip_add_to_watch_list(v: WatchRequest)
    ensures
        decode_add_to_watch_list(add_to_watch_list_json(v)) == Some(v),
{
    let p = add_to_watch_list_json(v);
    assert(tagged(add_to_watch_list_tag(), watch_request_json(v)) == p);
    let w = choose|w: WatchRequest| #[trigger] tagged(add_to_watch_list_tag(), watch_request_json(w)) == p;
    lemma_tagged_watch_request_injective(add_to_watch_list_tag(), w, v);
}

/// A payload whose variant name is not that of the watch-list command is not
/// the encoding of any command.
pub proof fn law_unknown_variant_not_a_command(t: Seq<char>, rest: Seq<char>)
    requires
        t != add_to_watch_list_tag(),
    ensures
        decode_add_to_watch_list(object_head(t) + rest) is None,
{
    let p = object_head(t) + rest;
    lemma_prefix_left(object_head(t), rest, p);
    assert forall|v: WatchRequest| #[trigger] tagged(add_to_watch_list_tag(), watch_request_json(v)) != p by {
        lemma_head_of_tagged(add_to_watch_list_tag(), watch_request_json(v));
        if tagged(add_to_watch_list_tag(), watch_request_json(v)) == p {
            lemma_object_head_unique(p, t, add_to_watch_list_tag());
        }
    }
}

/// A payload whose variant name is not that of the tracker query is not the
/// encoding of a query.
pub proof fn law_unknown_variant_not_a_query(t: Seq<char>, rest: Seq<char>)
    requires
        t != out_tx_tracker_all_tag(),
    ensures
        object_head(t) + rest != out_tx_tracker_all_json(),
{
    let p = object_head(t) + rest;
    lemma_prefix_left(object_head(t), rest, p);
    lemma_head_of_tagged(out_tx_tracker_all_tag(), seq!['{', '}']);
    if p == out_tx_tracker_all_json() {
        lemma_object_head_unique(p, t, out_tx_tracker_all_tag());
    }
}


/// Items separated by commas.
pub open spec fn join_items(items: Seq<Seq<char>>) -> Seq<char>
    decreases items.len(),
{
    if items.len() == 0 {
        Seq::empty()
    } else if items.len() == 1 {
        items[0]
    } else {
        join_items(items.drop_last()) + seq![','] + items.last()
    }
}

/// A JSON array of already written items.
pub open spec fn array_json(items: Seq<Seq<char>>) -> Seq<char> {
    seq!['['] + join_items(items) + seq![']']
}

/// `{"txhash":<string>,"singer":<string>}`
pub open spec fn tx_hash_list_json(h: TxHashList) -> Seq<char> {
    seq!['{'] + field_key("txhash"@) + json_string(h.txhash@) + seq![','] + field_key("singer"@)
        + json_string(h.singer@) + seq!['}']
}

/// `{"index":<string>,"chain":<string>,"nonce":<string>,"hashlist":[...]}`
pub open spec fn out_tx_tracker_json(t: OutTxTracker) -> Seq<char> {
    seq!['{'] + field_key("index"@) + json_string(t.index@) + seq![','] + field_key("chain"@)
        + json_string(t.chain@) + seq![','] + field_key("nonce"@) + json_string(t.nonce@) + seq![
        ',',
    ] + field_key("hashlist"@) + array_json(t.hashlist@.map_values(|h: TxHashList| tx_hash_list_json(h)))
        + seq!['}']
}

/// `{"out_tx_tracker":[...]}`
pub open spec fn out_tx_tracker_all_response_json(r: OutTxTrackerAllResponse) -> Seq<char> {
    seq!['{'] + field_key("out_tx_tracker"@) + array_json(
        r.out_tx_tracker@.map_values(|t: OutTxTracker| out_tx_tracker_json(t)),
    ) + seq!['}']
}

fn write_field_key(out: &mut String, k: &str)
    ensures
        final(out)@ == old(out)@ + field_key(k@),
{
    let ghost start = out@;
    write_json_string(out, k);
    push_char(out, ':');
    assert(out@ =~= start + field_key(k@));
}

proof fn lemma_join_step(items: Seq<Seq<char>>, i: int)
    requires
        0 <= i < items.len(),
    ensures
        join_items(items.take(i + 1)) == if i == 0 {
            items[0]
        } else {
            join_items(items.take(i)) + seq![','] + items[i]
        },
{
    let t = items.take(i + 1);
    assert(t.drop_last() =~= items.take(i));
    assert(t.last() == items[i]);
    if i == 0 {
        assert(t.len() == 1);
    }
}

fn write_tx_hash_list(out: &mut String, h: &TxHashList)
    ensures
        final(out)@ == old(out)@ + tx_hash_list_json(*h),
{
    let ghost start = out@;
    push_char(out, '{');
    write_field_key(out, "txhash");
    write_json_string(out, h.txhash.as_str());
    push_char(out, ',');
    write_field_key(out, "singer");
    write_json_string(out, h.singer.as_str());
    push_char(out, '}');
    assert(out@ =~= start + tx_hash_list_json(*h));
}

fn write_hashlist(out: &mut String, list: &Vec<TxHashList>)
    ensures
        final(out)@ == old(out)@ + array_json(list@.map_values(|h: TxHashList| tx_hash_list_json(h))),
{
    let ghost start = out@;
    let ghost items = list@.map_values(|h: TxHashList| tx_hash_list_json(h));
    push_char(out, '[');
    let n = list.len();
    let mut i: usize = 0;
    while i < n
        invariant
            n == list@.len(),
            items == list@.map_values(|h: TxHashList| tx_hash_list_json(h)),
            i <= n,
            out@ == start + seq!['['] + join_items(items.take(i as int)),
        decreases n - i,
    {
        proof {
            lemma_join_step(items, i as int);
        }
        let ghost before = out@;
        if i > 0 {
            push_char(out, ',');
        }
        write_tx_hash_list(out, &list[i]);
        assert(out@ =~= start + seq!['['] + join_items(items.take(i + 1)));
        i = i + 1;
    }
    push_char(out, ']');
    assert(items.take(n as int) =~= items);
    assert(out@ =~= start + array_json(items));
}

fn write_out_tx_tracker(out: &mut String, t: &OutTxTracker)
    ensures
        final(out)@ == old(out)@ + out_tx_tracker_json(*t),
{
    let ghost start = out@;
    push_char(out, '{');
    write_field_key(out, "index");
    write_json_string(out, t.index.as_str());
    push_char(out, ',');
    write_field_key(out, "chain");
    write_json_string(out, t.chain.as_str());
    push_char(out, ',');
    write_field_key(out, "nonce");
    write_json_string(out, t.nonce.as_str());
    push_char(out, ',');
    write_field_key(out, "hashlist");
    write_hashlist(out, &t.hashlist);
    push_char(out, '}');
    assert(out@ =~= start + out_tx_tracker_json(*t));
}

/// Encodes the tracker snapshot for the caller of a query.
pub fn encode_out_tx_tracker_all_response(r: &OutTxTrackerAllResponse) -> (s: String)
    ensures
        s@ == out_tx_tracker_all_response_json(*r),
{
    let mut out = String::new();
    let ghost items = r.out_tx_tracker@.map_values(|t: OutTxTracker| out_tx_tracker_json(t));
    push_char(&mut out, '{');
    write_field_key(&mut out, "out_tx_tracker");
    let ghost start = out@;
    push_char(&mut out, '[');
    let n = r.out_tx_tracker.len();
    let mut i: usize = 0;
    while i < n
        invariant
            n == r.out_tx_tracker@.len(),
            items == r.out_tx_tracker@.map_values(|t: OutTxTracker| out_tx_tracker_json(t)),
            i <= n,
            out@ == start + seq!['['] + join_items(items.take(i as int)),
        decreases n - i,
    {
        proof {
            lemma_join_step(items, i as int);
        }
        if i > 0 {
            push_char(&mut out, ',');
        }
        write_out_tx_tracker(&mut out, &r.out_tx_tracker[i]);
        assert(out@ =~= start + seq!['['] + join_items(items.take(i + 1)));
        i = i + 1;
    }
    push_char(&mut out, ']');
    push_char(&mut out, '}');
    assert(items.take(n as int) =~= items);
    assert(out@ =~= out_tx_tracker_all_response_json(*r));
    out
}

} // verus!
