use vstd::prelude::*;

verus! {

/// Most bytes that one varint may take.
pub const VARINT_MAX_BYTES: usize = 10;

/// Most index varints that are skipped behind a schema-registry header.
pub const MAX_SKIPPED_VARINTS: usize = 5;

/// Length of the schema-registry header and of the gRPC frame header.
pub const HEADER_LEN: usize = 5;

/// The byte ends a varint: its top bit is clear.
pub open spec fn ends_varint(b: u8) -> bool {
    b & 0x80 == 0
}

/// Number of bytes of the varint at `from`, looking at no more than `budget` bytes: the
/// position after the first byte whose top bit is clear. `None` when the bytes end, or the
/// budget, before the varint does.
pub open spec fn varint_len_within(bytes: Seq<u8>, from: int, budget: nat) -> Option<int>
    decreases budget,
{
    if budget == 0 || from < 0 || from >= bytes.len() {
        None
    } else if ends_varint(bytes[from]) {
        Some(1)
    } else {
        match varint_len_within(bytes, from + 1, (budget - 1) as nat) {
            Some(n) => Some(n + 1),
            None => None,
        }
    }
}

/// Number of bytes of the varint at `from`; `None` when there is no complete varint of at
/// most ten bytes.
pub open spec fn varint_len(bytes: Seq<u8>, from: int) -> Option<int> {
    varint_len_within(bytes, from, VARINT_MAX_BYTES as nat)
}

/// Value of the first `n` bytes at `from` read as a varint: seven bits a byte, lowest
/// first; bits beyond the sixty-fourth are dropped.
pub open spec fn varint_value(bytes: Seq<u8>, from: int, n: nat) -> u64
    decreases n,
{
    if n == 0 {
        0
    } else {
        varint_value(bytes, from, (n - 1) as nat) | (((bytes[from + n - 1] & 0x7F) as u64) << ((7
            * (n - 1)) as u64))
    }
}

/// Position after `n` consecutive varints that begin at `from`; `None` when one of them is
/// not complete.
pub open spec fn skip_varints(bytes: Seq<u8>, from: int, n: nat) -> Option<int>
    decreases n,
{
    if n == 0 {
        Some(from)
    } else {
        match skip_varints(bytes, from, (n - 1) as nat) {
            Some(at) => match varint_len(bytes, at) {
                Some(l) => Some(at + l),
                None => None,
            },
            None => None,
        }
    }
}

/// A range of the payload: first index and index after the last.
pub type ViewRange = (usize, usize);

/// The list with `v` at its end, unless the list holds `v` already.
pub open spec fn with_view(views: Seq<ViewRange>, v: ViewRange) -> Seq<ViewRange> {
    if views.contains(v) {
        views
    } else {
        views.push(v)
    }
}

/// The payload carries a schema-registry header: a zero byte and four bytes of schema id,
/// with something behind them.
pub open spec fn has_registry_header(payload: Seq<u8>) -> bool {
    payload.len() > HEADER_LEN && payload[0] == 0
}

/// The views with the rest of the payload behind `n` index varints that follow the
/// schema-registry header, where there are `n` complete varints and something behind them.
pub open spec fn with_skipped(views: Seq<ViewRange>, payload: Seq<u8>, n: nat) -> Seq<ViewRange> {
    match skip_varints(payload, HEADER_LEN as int, n) {
        Some(at) => if at < payload.len() {
            with_view(views, (at as usize, payload.len() as usize))
        } else {
            views
        },
        None => views,
    }
}

/// The smaller of a count and the most varints that are skipped.
pub open spec fn capped_count(count: u64) -> nat {
    if count < MAX_SKIPPED_VARINTS as u64 {
        count as nat
    } else {
        MAX_SKIPPED_VARINTS as nat
    }
}

/// The views with the rest of the payload behind a counted list of index varints: a count
/// behind the schema-registry header, then as many varints as it says, five at most.
pub open spec fn with_counted(views: Seq<ViewRange>, payload: Seq<u8>) -> Seq<ViewRange> {
    match varint_len(payload, HEADER_LEN as int) {
        Some(l) => {
            let count = varint_value(payload, HEADER_LEN as int, l as nat);
            with_skipped(views, payload, 1 + capped_count(count))
        },
        None => views,
    }
}

/// The views with those of a schema-registry envelope: what follows the header; what
/// follows one to five index varints behind it; what follows a counted list of them.
pub open spec fn with_registry_views(views: Seq<ViewRange>, payload: Seq<u8>) -> Seq<ViewRange> {
    if has_registry_header(payload) {
        let v0 = with_view(views, (HEADER_LEN, payload.len() as usize));
        let v1 = with_skipped(v0, payload, 1);
        let v2 = with_skipped(v1, payload, 2);
        let v3 = with_skipped(v2, payload, 3);
        let v4 = with_skipped(v3, payload, 4);
        let v5 = with_skipped(v4, payload, 5);
        with_counted(v5, payload)
    } else {
        views
    }
}

/// The length that a gRPC frame header states: bytes one to four, most significant first.
pub open spec fn frame_len(payload: Seq<u8>) -> int {
    payload[1] * 0x100_0000 + payload[2] * 0x1_0000 + payload[3] * 0x100 + payload[4]
}

/// The payload begins with a gRPC frame: a flag of zero or one, a length, and at least as
/// many bytes as it states.
pub open spec fn has_frame(payload: Seq<u8>) -> bool {
    payload.len() >= HEADER_LEN && (payload[0] == 0 || payload[0] == 1) && payload.len()
        >= HEADER_LEN + frame_len(payload)
}

/// The views with the body of a gRPC frame, where the payload begins with one.
pub open spec fn with_frame_view(views: Seq<ViewRange>, payload: Seq<u8>) -> Seq<ViewRange> {
    if has_frame(payload) {
        with_view(views, (HEADER_LEN, (HEADER_LEN + frame_len(payload)) as usize))
    } else {
        views
    }
}

/// The views with the bytes behind a varint length prefix, where the payload begins with a
/// varint that is not zero and at least as many bytes follow as it states.
pub open spec fn with_prefixed_view(views: Seq<ViewRange>, payload: Seq<u8>) -> Seq<ViewRange> {
    match varint_len(payload, 0) {
        Some(l) => {
            let stated = varint_value(payload, 0, l as nat);
            if stated > 0 && payload.len() >= l + stated {
                with_view(views, (l as usize, (l + stated) as usize))
            } else {
                views
            }
        },
        None => views,
    }
}

/// The ranges of a payload that are tried as a message, in the order in which they are
/// tried: the whole payload, the views of a schema-registry envelope, the body of a gRPC
/// frame, the bytes behind a varint length prefix. No range occurs twice.
pub open spec fn candidate_ranges(payload: Seq<u8>) -> Seq<ViewRange> {
    with_prefixed_view(
        with_frame_view(
            with_registry_views(seq![(0usize, payload.len() as usize)], payload),
            payload,
        ),
        payload,
    )
}

/// Reads the varint at `from`: its length and value, or `None` when it is not complete.
pub fn parse_varint(bytes: &[u8], from: usize) -> (r: Option<(usize, u64)>)
    ensures
        match r {
            Some((len, value)) => varint_len(bytes@, from as int) == Some(len as int) && 1 <= len
                <= VARINT_MAX_BYTES && from + len <= bytes.len() && value == varint_value(
                bytes@,
                from as int,
                len as nat,
            ),
            None => varint_len(bytes@, from as int) is None,
        },
{
    let mut value: u64 = 0;
    let mut i: usize = 0;
    while i < VARINT_MAX_BYTES && from < bytes.len() && i < bytes.len() - from
        invariant
            i <= VARINT_MAX_BYTES,
            from <= bytes.len() ==> i <= bytes.len() - from,
            value == varint_value(bytes@, from as int, i as nat),
            varint_len(bytes@, from as int) == (match varint_len_within(
                bytes@,
                from + i,
                (VARINT_MAX_BYTES - i) as nat,
            ) {
                Some(n) => Some(n + i),
                None => None,
            }),
        decreases VARINT_MAX_BYTES - i,
    {
        let b: u8 = bytes[from + i];
        let shift: u64 = 7 * (i as u64);
        value = value | (((b & 0x7F) as u64) << shift);
        i += 1;
        if b & 0x80 == 0 {
            return Some((i, value));
        }
    }
    None
}

/// Position after `n` consecutive varints that begin at `from`.
pub fn skip_n_varints(bytes: &[u8], from: usize, n: usize) -> (r: Option<usize>)
    requires
        from <= bytes.len(),
    ensures
        match r {
            Some(at) => skip_varints(bytes@, from as int, n as nat) == Some(at as int) && from <= at
                <= bytes.len(),
            None => skip_varints(bytes@, from as int, n as nat) is None,
        },
{
    let mut at: usize = from;
    let mut k: usize = 0;
    while k < n
        invariant
            k <= n,
            from <= at <= bytes.len(),
            skip_varints(bytes@, from as int, k as nat) == Some(at as int),
        decreases n - k,
    {
        match parse_varint(bytes, at) {
            Some((len, _)) => {
                at = at + len;
            },
            None => {
                proof {
                    lemma_skip_stays_none(bytes@, from as int, (k + 1) as nat, n as nat);
                }
                return None;
            },
        }
        k += 1;
    }
    Some(at)
}

/// Once a run of varints is broken, no longer run from the same place is whole.
pub proof fn lemma_skip_stays_none(bytes: Seq<u8>, from: int, k: nat, n: nat)
    requires
        k <= n,
        skip_varints(bytes, from, k) is None,
    ensures
        skip_varints(bytes, from, n) is None,
    decreases n,
{
    if k < n {
        lemma_skip_stays_none(bytes, from, k, (n - 1) as nat);
    }
}

/// Every range lies within the first `n` bytes.
pub open spec fn ranges_fit(views: Seq<ViewRange>, n: usize) -> bool {
    forall|i: int| 0 <= i < views.len() ==> (#[trigger] views[i]).0 <= views[i].1 <= n
}

/// Appends `v` unless the list holds it already.
pub fn push_view(views: &mut Vec<ViewRange>, v: ViewRange)
    ensures
        final(views)@ == with_view(old(views)@, v),
        forall|n: usize|
            #[trigger] ranges_fit(old(views)@, n) && v.0 <= v.1 <= n ==> ranges_fit(
                final(views)@,
                n,
            ),
{
    let mut i: usize = 0;
    while i < views.len()
        invariant
            i <= views.len(),
            *views == *old(views),
            forall|j: int| 0 <= j < i ==> views@[j] != v,
        decreases views.len() - i,
    {
        if views[i].0 == v.0 && views[i].1 == v.1 {
            assert(views@[i as int] == v);
            return ;
        }
        i += 1;
    }
    views.push(v);
}

/// Appends the rest of the payload behind `n` index varints, where they are whole.
fn push_skipped(views: &mut Vec<ViewRange>, payload: &[u8], n: usize)
    requires
        payload.len() >= HEADER_LEN,
    ensures
        final(views)@ == with_skipped(old(views)@, payload@, n as nat),
        ranges_fit(old(views)@, payload.len()) ==> ranges_fit(final(views)@, payload.len()),
{
    match skip_n_varints(payload, HEADER_LEN, n) {
        Some(at) => {
            if at < payload.len() {
                push_view(views, (at, payload.len()));
            }
        },
        None => {},
    }
}

/// Lists the ranges of a payload that are tried as a message, in order.
pub fn candidate_views(payload: &[u8]) -> (views: Vec<ViewRange>)
    ensures
        views@ == candidate_ranges(payload@),
        ranges_fit(views@, payload.len()),
{
    let mut views: Vec<ViewRange> = Vec::new();
    views.push((0, payload.len()));
    assert(views@ =~= seq![(0usize, payload.len() as usize)]);
    if payload.len() > HEADER_LEN && payload[0] == 0 {
        push_view(&mut views, (HEADER_LEN, payload.len()));
        push_skipped(&mut views, payload, 1);
        push_skipped(&mut views, payload, 2);
        push_skipped(&mut views, payload, 3);
        push_skipped(&mut views, payload, 4);
        push_skipped(&mut views, payload, 5);
        match parse_varint(payload, HEADER_LEN) {
            Some((_, count)) => {
                let c: usize = if count < MAX_SKIPPED_VARINTS as u64 {
                    count as usize
                } else {
                    MAX_SKIPPED_VARINTS
                };
                push_skipped(&mut views, payload, 1 + c);
            },
            None => {},
        }
    }
    assert(views@ == with_registry_views(seq![(0usize, payload.len() as usize)], payload@));
    if payload.len() >= HEADER_LEN && (payload[0] == 0 || payload[0] == 1) {
        let stated: u64 = (payload[1] as u64) * 0x100_0000 + (payload[2] as u64) * 0x1_0000 + (
        payload[3] as u64) * 0x100 + (payload[4] as u64);
        if stated <= (payload.len() - HEADER_LEN) as u64 {
            push_view(&mut views, (HEADER_LEN, HEADER_LEN + stated as usize));
        }
    }
    match parse_varint(payload, 0) {
        Some((len, stated)) => {
            if stated > 0 && stated <= (payload.len() - len) as u64 {
                push_view(&mut views, (len, len + stated as usize));
            }
        },
        None => {},
    }
    views
}

/// A list keeps what it holds when a range is added, and holds the range afterwards.
pub proof fn lemma_with_view(views: Seq<ViewRange>, v: ViewRange, w: ViewRange)
    ensures
        with_view(views, v).contains(v),
        views.contains(w) ==> with_view(views, v).contains(w),
{
    if !views.contains(v) {
        assert(views.push(v)[views.len() as int] == v);
        if views.contains(w) {
            let i = choose|i: int| 0 <= i < views.len() && views[i] == w;
            assert(views.push(v)[i] == w);
        }
    }
}

/// Later steps keep the ranges of a schema-registry envelope.
pub proof fn lemma_skipped_keeps(views: Seq<ViewRange>, payload: Seq<u8>, n: nat, w: ViewRange)
    requires
        views.contains(w),
    ensures
        with_skipped(views, payload, n).contains(w),
{
    match skip_varints(payload, HEADER_LEN as int, n) {
        Some(at) => {
            lemma_with_view(views, (at as usize, payload.len() as usize), w);
        },
        None => {},
    }
}

/// The steps behind the schema-registry envelope keep what was listed before them.
pub proof fn lemma_later_views_keep(views: Seq<ViewRange>, payload: Seq<u8>, w: ViewRange)
    requires
        views.contains(w),
    ensures
        with_prefixed_view(with_frame_view(views, payload), payload).contains(w),
{
    let framed = with_frame_view(views, payload);
    if has_frame(payload) {
        lemma_with_view(views, (HEADER_LEN, (HEADER_LEN + frame_len(payload)) as usize), w);
    }
    match varint_len(payload, 0) {
        Some(l) => {
            let stated = varint_value(payload, 0, l as nat);
            lemma_with_view(framed, (l as usize, (l + stated) as usize), w);
        },
        None => {},
    }
}

/// The whole payload is among the ranges that are tried.
pub proof fn law_whole_payload_is_tried(payload: Seq<u8>)
    ensures
        candidate_ranges(payload).contains((0usize, payload.len() as usize)),
{
    let first = seq![(0usize, payload.len() as usize)];
    let whole = (0usize, payload.len() as usize);
    assert(first[0] == whole);
    lemma_registry_keeps(first, payload, whole);
    lemma_later_views_keep(with_registry_views(first, payload), payload, whole);
}

/// The views of a schema-registry envelope keep what was listed before them.
pub proof fn lemma_registry_keeps(views: Seq<ViewRange>, payload: Seq<u8>, w: ViewRange)
    requires
        views.contains(w),
    ensures
        with_registry_views(views, payload).contains(w),
{
    if has_registry_header(payload) {
        let v0 = with_view(views, (HEADER_LEN, payload.len() as usize));
        lemma_with_view(views, (HEADER_LEN, payload.len() as usize), w);
        let v1 = with_skipped(v0, payload, 1);
        lemma_skipped_keeps(v0, payload, 1, w);
        let v2 = with_skipped(v1, payload, 2);
        lemma_skipped_keeps(v1, payload, 2, w);
        let v3 = with_skipped(v2, payload, 3);
        lemma_skipped_keeps(v2, payload, 3, w);
        let v4 = with_skipped(v3, payload, 4);
        lemma_skipped_keeps(v3, payload, 4, w);
        let v5 = with_skipped(v4, payload, 5);
        lemma_skipped_keeps(v4, payload, 5, w);
        match varint_len(payload, HEADER_LEN as int) {
            Some(l) => {
                let count = varint_value(payload, HEADER_LEN as int, l as nat);
                lemma_skipped_keeps(v5, payload, 1 + capped_count(count), w);
            },
            None => {},
        }
    }
}

/// Behind a schema-registry header, what follows `n` whole index varints, five at most, is
/// among the ranges that are tried, if anything follows them. With `n` zero this is what
/// follows the header itself.
pub proof fn law_registry_body_is_tried(payload: Seq<u8>, n: nat, at: int)
    requires
        has_registry_header(payload),
        n <= MAX_SKIPPED_VARINTS,
        skip_varints(payload, HEADER_LEN as int, n) == Some(at),
        at < payload.len(),
    ensures
        candidate_ranges(payload).contains((at as usize, payload.len() as usize)),
{
    let first = seq![(0usize, payload.len() as usize)];
    let target = (at as usize, payload.len() as usize);
    let v0 = with_view(first, (HEADER_LEN, payload.len() as usize));
    let v1 = with_skipped(v0, payload, 1);
    let v2 = with_skipped(v1, payload, 2);
    let v3 = with_skipped(v2, payload, 3);
    let v4 = with_skipped(v3, payload, 4);
    let v5 = with_skipped(v4, payload, 5);
    if n == 0 {
        lemma_with_view(first, target, target);
        lemma_skipped_keeps(v0, payload, 1, target);
    } else if n == 1 {
        lemma_with_view(v0, target, target);
    }
    assert(n <= 1 ==> v1.contains(target));
    if n <= 1 {
        lemma_skipped_keeps(v1, payload, 2, target);
    } else if n == 2 {
        lemma_with_view(v1, target, target);
    }
    assert(n <= 2 ==> v2.contains(target));
    if n <= 2 {
        lemma_skipped_keeps(v2, payload, 3, target);
    } else if n == 3 {
        lemma_with_view(v2, target, target);
    }
    assert(n <= 3 ==> v3.contains(target));
    if n <= 3 {
        lemma_skipped_keeps(v3, payload, 4, target);
    } else if n == 4 {
        lemma_with_view(v3, target, target);
    }
    assert(n <= 4 ==> v4.contains(target));
    if n <= 4 {
        lemma_skipped_keeps(v4, payload, 5, target);
    } else {
        lemma_with_view(v4, target, target);
    }
    assert(v5.contains(target));
    let listed = with_registry_views(first, payload);
    match varint_len(payload, HEADER_LEN as int) {
        Some(l) => {
            let count = varint_value(payload, HEADER_LEN as int, l as nat);
            lemma_skipped_keeps(v5, payload, 1 + capped_count(count), target);
        },
        None => {},
    }
    assert(listed.contains(target));
    lemma_later_views_keep(listed, payload, target);
}

/// Behind a schema-registry header with a counted list of index varints, a count and as
/// many varints as it says (five at most), what follows the list is among the ranges that
/// are tried, if anything follows it.
pub proof fn law_registry_counted_body_is_tried(payload: Seq<u8>, l: int, at: int)
    requires
        has_registry_header(payload),
        varint_len(payload, HEADER_LEN as int) == Some(l),
        skip_varints(
            payload,
            HEADER_LEN as int,
            1 + capped_count(varint_value(payload, HEADER_LEN as int, l as nat)),
        ) == Some(at),
        at < payload.len(),
    ensures
        candidate_ranges(payload).contains((at as usize, payload.len() as usize)),
{
    let first = seq![(0usize, payload.len() as usize)];
    let target = (at as usize, payload.len() as usize);
    let v0 = with_view(first, (HEADER_LEN, payload.len() as usize));
    let v5 = with_skipped(
        with_skipped(
            with_skipped(with_skipped(with_skipped(v0, payload, 1), payload, 2), payload, 3),
            payload,
            4,
        ),
        payload,
        5,
    );
    lemma_with_view(v5, target, target);
    lemma_later_views_keep(with_registry_views(first, payload), payload, target);
}

/// The body of a gRPC frame is among the ranges that are tried.
pub proof fn law_frame_body_is_tried(payload: Seq<u8>)
    requires
        has_frame(payload),
    ensures
        candidate_ranges(payload).contains(
            (HEADER_LEN, (HEADER_LEN + frame_len(payload)) as usize),
        ),
{
    let listed = with_registry_views(seq![(0usize, payload.len() as usize)], payload);
    let target = (HEADER_LEN, (HEADER_LEN + frame_len(payload)) as usize);
    lemma_with_view(listed, target, target);
    let framed = with_frame_view(listed, payload);
    match varint_len(payload, 0) {
        Some(l) => {
            let stated = varint_value(payload, 0, l as nat);
            lemma_with_view(framed, (l as usize, (l + stated) as usize), target);
        },
        None => {},
    }
}

/// What follows a varint length prefix is among the ranges that are tried, when the prefix
/// is not zero and at least as many bytes follow as it states.
pub proof fn law_prefixed_body_is_tried(payload: Seq<u8>, l: int)
    requires
        varint_len(payload, 0) == Some(l),
        varint_value(payload, 0, l as nat) > 0,
        payload.len() >= l + varint_value(payload, 0, l as nat),
    ensures
        candidate_ranges(payload).contains(
            (l as usize, (l + varint_value(payload, 0, l as nat)) as usize),
        ),
{
    let framed = with_frame_view(
        with_registry_views(seq![(0usize, payload.len() as usize)], payload),
        payload,
    );
    let target = (l as usize, (l + varint_value(payload, 0, l as nat)) as usize);
    lemma_with_view(framed, target, target);
}

/// The four bytes that state a length in a gRPC frame header, most significant first.
pub open spec fn length_bytes(n: nat) -> Seq<u8> {
    seq![
        ((n / 0x100_0000) % 0x100) as u8,
        ((n / 0x1_0000) % 0x100) as u8,
        ((n / 0x100) % 0x100) as u8,
        (n % 0x100) as u8,
    ]
}

/// A message in a gRPC frame: a flag, the length of the message, the message.
pub open spec fn framed(flag: u8, body: Seq<u8>) -> Seq<u8> {
    seq![flag] + length_bytes(body.len()) + body
}

/// A message that is put into a gRPC frame is found again: the body of the frame is the
/// message, and it is among the ranges that are tried.
pub proof fn law_framed_message_is_tried(flag: u8, body: Seq<u8>)
    requires
        flag == 0 || flag == 1,
        body.len() < 0x1_0000_0000,
    ensures
        candidate_ranges(framed(flag, body)).contains(
            (HEADER_LEN, (HEADER_LEN + body.len()) as usize),
        ),
        framed(flag, body).subrange(HEADER_LEN as int, HEADER_LEN + body.len()) == body,
{
    let payload = framed(flag, body);
    let n = body.len();
    assert(payload[0] == flag);
    assert(payload[1] == ((n / 0x100_0000) % 0x100) as u8);
    assert(payload[2] == ((n / 0x1_0000) % 0x100) as u8);
    assert(payload[3] == ((n / 0x100) % 0x100) as u8);
    assert(payload[4] == (n % 0x100) as u8);
    assert(frame_len(payload) == n);
    assert(payload.len() == HEADER_LEN + n);
    law_frame_body_is_tried(payload);
    assert(payload.subrange(HEADER_LEN as int, HEADER_LEN + n) =~= body);
}

/// A message behind a schema-registry header, a zero byte and four bytes of schema id, is
/// found again: what follows the header is the message, and it is among the ranges that
/// are tried.
pub proof fn law_registry_message_is_tried(schema_id: Seq<u8>, body: Seq<u8>)
    requires
        schema_id.len() == 4,
        body.len() > 0,
    ensures
        candidate_ranges(seq![0u8] + schema_id + body).contains(
            (HEADER_LEN, (HEADER_LEN + body.len()) as usize),
        ),
        (seq![0u8] + schema_id + body).subrange(HEADER_LEN as int, HEADER_LEN + body.len())
            == body,
{
    let payload = seq![0u8] + schema_id + body;
    assert(payload[0] == 0);
    assert(payload.len() == HEADER_LEN + body.len());
    law_registry_body_is_tried(payload, 0, HEADER_LEN as int);
    assert(payload.subrange(HEADER_LEN as int, HEADER_LEN + body.len()) =~= body);
}

/// Adding a range to a list that holds one keeps its first range.
pub proof fn lemma_with_view_keeps_first(views: Seq<ViewRange>, v: ViewRange)
    requires
        views.len() > 0,
    ensures
        with_view(views, v).len() > 0,
        with_view(views, v)[0] == views[0],
{
}

/// Adding what follows index varints keeps the first range of the list.
pub proof fn lemma_skipped_keeps_first(views: Seq<ViewRange>, payload: Seq<u8>, n: nat)
    requires
        views.len() > 0,
    ensures
        with_skipped(views, payload, n).len() > 0,
        with_skipped(views, payload, n)[0] == views[0],
{
}

/// The whole payload is the first range that is tried.
pub proof fn law_whole_payload_is_first(payload: Seq<u8>)
    ensures
        candidate_ranges(payload).len() > 0,
        candidate_ranges(payload)[0] == (0usize, payload.len() as usize),
{
    let first = seq![(0usize, payload.len() as usize)];
    assert(first[0] == (0usize, payload.len() as usize));
    let listed = with_registry_views(first, payload);
    if has_registry_header(payload) {
        let v0 = with_view(first, (HEADER_LEN, payload.len() as usize));
        lemma_with_view_keeps_first(first, (HEADER_LEN, payload.len() as usize));
        let v1 = with_skipped(v0, payload, 1);
        lemma_skipped_keeps_first(v0, payload, 1);
        let v2 = with_skipped(v1, payload, 2);
        lemma_skipped_keeps_first(v1, payload, 2);
        let v3 = with_skipped(v2, payload, 3);
        lemma_skipped_keeps_first(v2, payload, 3);
        let v4 = with_skipped(v3, payload, 4);
        lemma_skipped_keeps_first(v3, payload, 4);
        let v5 = with_skipped(v4, payload, 5);
        lemma_skipped_keeps_first(v4, payload, 5);
        match varint_len(payload, HEADER_LEN as int) {
            Some(l) => {
                let count = varint_value(payload, HEADER_LEN as int, l as nat);
                lemma_skipped_keeps_first(v5, payload, 1 + capped_count(count));
            },
            None => {},
        }
    }
    assert(listed.len() > 0 && listed[0] == first[0]);
    let framed = with_frame_view(listed, payload);
    if has_frame(payload) {
        lemma_with_view_keeps_first(
            listed,
            (HEADER_LEN, (HEADER_LEN + frame_len(payload)) as usize),
        );
    }
    match varint_len(payload, 0) {
        Some(l) => {
            let stated = varint_value(payload, 0, l as nat);
            lemma_with_view_keeps_first(framed, (l as usize, (l + stated) as usize));
        },
        None => {},
    }
}

} // verus!
