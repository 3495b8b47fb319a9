//! What holds of the helper protocol as a whole.

use crate::platform::Platform;
use crate::user_fs_helper::{
    counting_fault, encoded_request, encoded_response, name_bytes, names_fault, names_size,
    path_fault, request_fault, request_header, sent_error, split_body, split_names, split_request,
    split_response, RequestView, ResponseView, MAX_ERROR_BYTES, MAX_ITEMS, MAX_TOTAL_NAME_BYTES,
};
use crate::wire::{
    end_of_input, frame, frames, le_bytes, le_value, lemma_cut_frame, lemma_cut_frames,
    lemma_frame_round_trip, lemma_frames_round_trip,
    lemma_le_bytes, lemma_le_limits, lemma_le_value, lemma_split_frame_is_frame,
    lemma_split_frames_is_frames, split_frame, split_frames, split_input, split_u32, ProtocolError,
    MAX_PATH_BYTES,
};
use vstd::prelude::*;
use vstd::utf8::{decode_utf8, encode_utf8, valid_utf8};

verus! {

proof fn lemma_count_round_trip(n: nat, rest: Seq<u8>)
    requires
        n <= MAX_ITEMS,
    ensures
        split_u32(le_bytes(n, 4) + rest) == Ok::<(nat, Seq<u8>), ProtocolError>((n, rest)),
{
    lemma_le_bytes(n, 4);
    lemma_le_limits();
    let s = le_bytes(n, 4) + rest;
    assert(s.take(4) =~= le_bytes(n, 4));
    assert(s.skip(4) =~= rest);
}

proof fn lemma_header(body: Seq<u8>, opcode: u8, platform: Platform)
    ensures
        split_request(request_header() + (seq![opcode] + body), platform) == split_body(
            opcode,
            body,
            platform,
        ),
{
    let s = request_header() + (seq![opcode] + body);
    assert(s.take(3) =~= request_header());
    assert(s.skip(3) =~= seq![opcode] + body);
    assert((seq![opcode] + body).take(1) =~= seq![opcode]);
    assert((seq![opcode] + body).skip(1) =~= body);
}

proof fn lemma_names_size_step(names: Seq<Seq<char>>, n: int)
    requires
        0 <= n < names.len(),
    ensures
        names_size(names.take(n + 1)) == names_size(names.take(n)) + encode_utf8(names[n]).len(),
{
    assert(names.take(n + 1).drop_last() =~= names.take(n));
}

proof fn lemma_names_size_bound(names: Seq<Seq<char>>, n: int)
    requires
        0 <= n <= names.len(),
    ensures
        names_size(names.take(n)) <= names_size(names),
    decreases names.len() - n,
{
    if n < names.len() {
        lemma_names_size_step(names, n);
        lemma_names_size_bound(names, n + 1);
    } else {
        assert(names.take(n) =~= names);
    }
}

proof fn lemma_small_names(names: Seq<Seq<char>>)
    requires
        counting_fault(names) is None,
    ensures
        forall|i: int|
            0 <= i < names.len() ==> encode_utf8(#[trigger] names[i]).len() <= MAX_PATH_BYTES,
    decreases names.len(),
{
    if names.len() > 0 {
        lemma_small_names(names.drop_last());
        assert forall|i: int| 0 <= i < names.len() implies encode_utf8(#[trigger] names[i]).len()
            <= MAX_PATH_BYTES by {
            if i < names.len() - 1 {
                assert(names[i] == names.drop_last()[i]);
            }
        }
    }
}

proof fn lemma_names_round_trip(names: Seq<Seq<char>>, n: int, rest: Seq<u8>)
    requires
        0 <= n <= names.len(),
        forall|i: int|
            0 <= i < names.len() ==> encode_utf8(#[trigger] names[i]).len() <= MAX_PATH_BYTES,
        names_size(names) <= MAX_TOTAL_NAME_BYTES,
    ensures
        split_names(
            frames(name_bytes(names).skip(n)) + rest,
            (names.len() - n) as nat,
            names_size(names.take(n)),
        ) == Ok::<(Seq<Seq<char>>, Seq<u8>), ProtocolError>((names.skip(n), rest)),
    decreases names.len() - n,
{
    let all = name_bytes(names);
    if n == names.len() {
        assert(names.skip(n) =~= Seq::<Seq<char>>::empty());
        assert(all.skip(n) =~= Seq::<Seq<u8>>::empty());
        assert(frames(all.skip(n)) + rest =~= rest);
    } else {
        lemma_names_round_trip(names, n + 1, rest);
        lemma_names_size_step(names, n);
        lemma_names_size_bound(names, n + 1);
        let bytes = encode_utf8(names[n]);
        assert(all.skip(n)[0] == bytes);
        assert(all.skip(n).drop_first() =~= all.skip(n + 1));
        let tail = frames(all.skip(n + 1)) + rest;
        assert(frames(all.skip(n)) + rest =~= frame(bytes) + tail);
        lemma_frame_round_trip(bytes, tail);
        vstd::utf8::encode_utf8_valid_utf8(names[n]);
        vstd::utf8::encode_utf8_decode_utf8(names[n]);
        assert(seq![names[n]] + names.skip(n + 1) =~= names.skip(n));
    }
}

proof fn lemma_trash_round_trip(paths: Seq<Seq<u8>>, rest: Seq<u8>, platform: Platform)
    requires
        request_fault(RequestView::Trash(paths)) is None,
    ensures
        split_request(encoded_request(RequestView::Trash(paths)) + rest, platform) == Ok::<
            (RequestView, Seq<u8>),
            ProtocolError,
        >((RequestView::Trash(paths), rest)),
{
    let request = RequestView::Trash(paths);
    let tail = frames(paths) + rest;
    let body = le_bytes(paths.len(), 4) + tail;
    assert(encoded_request(request) + rest =~= request_header() + (seq![1u8] + body));
    lemma_header(body, 1, platform);
    lemma_count_round_trip(paths.len(), tail);
    assert forall|i: int| 0 <= i < paths.len() implies (#[trigger] paths[i]).len()
        <= MAX_PATH_BYTES by {
        assert(path_fault(paths[i]) is None);
    }
    lemma_frames_round_trip(paths, rest);
}

proof fn lemma_restore_round_trip(path: Seq<u8>, rest: Seq<u8>, platform: Platform)
    requires
        request_fault(RequestView::Restore(path)) is None,
    ensures
        split_request(encoded_request(RequestView::Restore(path)) + rest, platform) == Ok::<
            (RequestView, Seq<u8>),
            ProtocolError,
        >((RequestView::Restore(path), rest)),
{
    let request = RequestView::Restore(path);
    let body = frame(path) + rest;
    assert(encoded_request(request) + rest =~= request_header() + (seq![2u8] + body));
    lemma_header(body, 2, platform);
    lemma_frame_round_trip(path, rest);
}

proof fn lemma_origins_round_trip(names: Seq<Seq<char>>, rest: Seq<u8>)
    requires
        request_fault(RequestView::RemoveRestoreOrigins(names)) is None,
    ensures
        split_request(
            encoded_request(RequestView::RemoveRestoreOrigins(names)) + rest,
            Platform::MacOs,
        ) == Ok::<(RequestView, Seq<u8>), ProtocolError>(
            (RequestView::RemoveRestoreOrigins(names), rest),
        ),
{
    let request = RequestView::RemoveRestoreOrigins(names);
    let all = name_bytes(names);
    let tail = frames(all) + rest;
    let body = le_bytes(names.len(), 4) + tail;
    assert(encoded_request(request) + rest =~= request_header() + (seq![3u8] + body));
    lemma_header(body, 3, Platform::MacOs);
    lemma_count_round_trip(names.len(), tail);
    lemma_small_names(names);
    lemma_names_round_trip(names, 0, rest);
    assert(all.skip(0) =~= all);
    assert(names.skip(0) =~= names);
    assert(names.take(0) =~= Seq::<Seq<char>>::empty());
}

/// A request that may be sent is read back as it was, and whatever follows it is
/// left unread. Requests about restore origins are known to macOS alone.
pub proof fn lemma_request_round_trip(request: RequestView, rest: Seq<u8>, platform: Platform)
    requires
        request_fault(request) is None,
        request is RemoveRestoreOrigins ==> platform == Platform::MacOs,
    ensures
        split_request(encoded_request(request) + rest, platform) == Ok::<
            (RequestView, Seq<u8>),
            ProtocolError,
        >((request, rest)),
{
    match request {
        RequestView::Trash(paths) => lemma_trash_round_trip(paths, rest, platform),
        RequestView::Restore(path) => lemma_restore_round_trip(path, rest, platform),
        RequestView::RemoveRestoreOrigins(names) => lemma_origins_round_trip(names, rest),
    }
}

proof fn lemma_cut_names(names: Seq<Seq<char>>, k: int, n: int)
    requires
        0 <= k <= names.len(),
        forall|i: int|
            0 <= i < names.len() ==> encode_utf8(#[trigger] names[i]).len() <= MAX_PATH_BYTES,
        names_size(names) <= MAX_TOTAL_NAME_BYTES,
        0 <= n < frames(name_bytes(names).skip(k)).len(),
    ensures
        split_names(
            frames(name_bytes(names).skip(k)).take(n),
            (names.len() - k) as nat,
            names_size(names.take(k)),
        ) == Err::<(Seq<Seq<char>>, Seq<u8>), ProtocolError>(end_of_input()),
    decreases names.len() - k,
{
    let all = name_bytes(names);
    let s = frames(all.skip(k)).take(n);
    assert(k < names.len());
    lemma_names_size_step(names, k);
    lemma_names_size_bound(names, k + 1);
    let bytes = encode_utf8(names[k]);
    assert(all.skip(k)[0] == bytes);
    assert(all.skip(k).drop_first() =~= all.skip(k + 1));
    let first = frame(bytes);
    if n < first.len() {
        assert(s =~= first.take(n));
        lemma_cut_frame(bytes, n);
    } else {
        let rest = frames(all.skip(k + 1)).take(n - first.len());
        assert(s =~= first + rest);
        lemma_frame_round_trip(bytes, rest);
        vstd::utf8::encode_utf8_valid_utf8(names[k]);
        lemma_cut_names(names, k + 1, n - first.len());
    }
}

/// The first bytes of a number and of what follows it.
proof fn lemma_cut_behind_count(count: nat, tail: Seq<u8>, n: int)
    requires
        count <= MAX_ITEMS,
        0 <= n < 4 + tail.len(),
    ensures
        split_u32((le_bytes(count, 4) + tail).take(n)) == if n < 4 {
            Err::<(nat, Seq<u8>), ProtocolError>(end_of_input())
        } else {
            Ok((count, tail.take(n - 4)))
        },
{
    lemma_le_bytes(count, 4);
    if n >= 4 {
        lemma_count_round_trip(count, tail.take(n - 4));
        assert((le_bytes(count, 4) + tail).take(n) =~= le_bytes(count, 4) + tail.take(n - 4));
    }
}

proof fn lemma_cut_body(request: RequestView, body: Seq<u8>, opcode: u8, n: int, platform: Platform)
    requires
        request_fault(request) is None,
        request is RemoveRestoreOrigins ==> platform == Platform::MacOs,
        match request {
            RequestView::Trash(paths) => opcode == 1 && body == le_bytes(paths.len(), 4) + frames(
                paths,
            ),
            RequestView::Restore(path) => opcode == 2 && body == frame(path),
            RequestView::RemoveRestoreOrigins(names) => opcode == 3 && body == le_bytes(
                names.len(),
                4,
            ) + frames(name_bytes(names)),
        },
        0 <= n < body.len(),
    ensures
        split_body(opcode, body.take(n), platform) == Err::<(RequestView, Seq<u8>), ProtocolError>(
            end_of_input(),
        ),
{
    match request {
        RequestView::Trash(paths) => {
            lemma_le_bytes(paths.len(), 4);
            lemma_cut_behind_count(paths.len(), frames(paths), n);
            assert forall|i: int| 0 <= i < paths.len() implies (#[trigger] paths[i]).len()
                <= MAX_PATH_BYTES by {
                assert(path_fault(paths[i]) is None);
            }
            if n >= 4 {
                lemma_cut_frames(paths, n - 4);
            }
        },
        RequestView::Restore(path) => lemma_cut_frame(path, n),
        RequestView::RemoveRestoreOrigins(names) => {
            let all = name_bytes(names);
            lemma_le_bytes(names.len(), 4);
            lemma_cut_behind_count(names.len(), frames(all), n);
            lemma_small_names(names);
            if n >= 4 {
                assert(all.skip(0) =~= all);
                assert(names.take(0) =~= Seq::<Seq<char>>::empty());
                lemma_cut_names(names, 0, n - 4);
            }
        },
    }
}

/// A request that is cut short, at whatever place, is answered with the end of the
/// input and nothing else.
pub proof fn lemma_cut_request_ends_early(request: RequestView, n: int, platform: Platform)
    requires
        request_fault(request) is None,
        request is RemoveRestoreOrigins ==> platform == Platform::MacOs,
        0 <= n < encoded_request(request).len(),
    ensures
        split_request(encoded_request(request).take(n), platform) == Err::<
            (RequestView, Seq<u8>),
            ProtocolError,
        >(end_of_input()),
{
    let all = encoded_request(request);
    let s = all.take(n);
    let opcode = match request {
        RequestView::Trash(_) => 1u8,
        RequestView::Restore(_) => 2u8,
        RequestView::RemoveRestoreOrigins(_) => 3u8,
    };
    let body = match request {
        RequestView::Trash(paths) => le_bytes(paths.len(), 4) + frames(paths),
        RequestView::Restore(path) => frame(path),
        RequestView::RemoveRestoreOrigins(names) => le_bytes(names.len(), 4) + frames(
            name_bytes(names),
        ),
    };
    assert(all =~= request_header() + (seq![opcode] + body));
    if n >= 3 {
        assert(s.take(3) =~= request_header());
    }
    if n >= 4 {
        assert(s =~= request_header() + (seq![opcode] + body.take(n - 4)));
        lemma_header(body.take(n - 4), opcode, platform);
        lemma_cut_body(request, body, opcode, n - 4, platform);
    }
}

/// A response that is cut short, at whatever place, is read as the end of the
/// input and nothing else.
pub proof fn lemma_cut_response_ends_early(response: ResponseView, n: int)
    requires
        0 <= n < encoded_response(response).len(),
    ensures
        split_response(encoded_response(response).take(n)) == Err::<
            ((nat, Option<Seq<u8>>), Seq<u8>),
            ProtocolError,
        >(end_of_input()),
{
    let head = le_bytes(response.completed as nat, 8);
    let s = encoded_response(response).take(n);
    lemma_le_bytes(response.completed as nat, 8);
    if n >= 8 {
        assert(s.take(8) =~= head);
    }
    if n >= 9 {
        let sent = sent_error(response.error->0);
        assert(s =~= head + (seq![1u8] + frame(sent).take(n - 9)));
        assert(s.skip(8) =~= seq![1u8] + frame(sent).take(n - 9));
        assert(s.skip(8).take(1)[0] == 1u8);
        assert(s.skip(8).skip(1) =~= frame(sent).take(n - 9));
        lemma_cut_frame(sent, n - 9);
    }
}

proof fn lemma_counting_ok(names: Seq<Seq<char>>)
    requires
        forall|i: int|
            0 <= i < names.len() ==> encode_utf8(#[trigger] names[i]).len() <= MAX_PATH_BYTES,
        names_size(names) <= MAX_TOTAL_NAME_BYTES,
    ensures
        counting_fault(names) is None,
    decreases names.len(),
{
    if names.len() > 0 {
        let front = names.drop_last();
        assert forall|i: int| 0 <= i < front.len() implies encode_utf8(#[trigger] front[i]).len()
            <= MAX_PATH_BYTES by {
            assert(front[i] == names[i]);
        }
        lemma_counting_ok(front);
    }
}

proof fn lemma_names_size_cons(first: Seq<char>, others: Seq<Seq<char>>)
    ensures
        names_size(seq![first] + others) == encode_utf8(first).len() + names_size(others),
    decreases others.len(),
{
    let all = seq![first] + others;
    if others.len() == 0 {
        assert(all.drop_last() =~= Seq::<Seq<char>>::empty());
        assert(all.last() == first);
        assert(names_size(all.drop_last()) == 0);
    } else {
        lemma_names_size_cons(first, others.drop_last());
        assert(all.drop_last() =~= seq![first] + others.drop_last());
        assert(all.last() == others.last());
    }
}

proof fn lemma_split_names_is_names(s: Seq<u8>, n: nat, total: nat)
    requires
        total <= MAX_TOTAL_NAME_BYTES,
    ensures
        split_names(s, n, total) matches Ok((names, rest)) ==> {
            &&& names.len() == n
            &&& s == frames(name_bytes(names)) + rest
            &&& total + names_size(names) <= MAX_TOTAL_NAME_BYTES
            &&& forall|i: int|
                0 <= i < names.len() ==> encode_utf8(#[trigger] names[i]).len() <= MAX_PATH_BYTES
        },
    decreases n,
{
    if n == 0 {
        assert(name_bytes(Seq::empty()) =~= Seq::<Seq<u8>>::empty());
        assert(s =~= frames(name_bytes(Seq::empty())) + s);
    } else {
        lemma_split_frame_is_frame(s);
        if let Ok((bytes, after)) = split_frame(s) {
            if total + bytes.len() <= MAX_TOTAL_NAME_BYTES && valid_utf8(bytes) {
                lemma_split_names_is_names(after, (n - 1) as nat, total + bytes.len());
                let others_read = split_names(after, (n - 1) as nat, total + bytes.len());
                if let Ok((others, rest)) = others_read {
                    let first = decode_utf8(bytes);
                    let names = seq![first] + others;
                    vstd::utf8::decode_utf8_encode_utf8(bytes);
                    assert(encode_utf8(first) == bytes);
                    assert(name_bytes(names) =~= seq![bytes] + name_bytes(others));
                    assert(name_bytes(names).drop_first() =~= name_bytes(others));
                    assert(s =~= frames(name_bytes(names)) + rest);
                    lemma_names_size_cons(first, others);
                    assert forall|i: int| 0 <= i < names.len() implies encode_utf8(
                        #[trigger] names[i],
                    ).len() <= MAX_PATH_BYTES by {
                        if i > 0 {
                            assert(names[i] == others[i - 1]);
                        }
                    }
                }
            }
        }
    }
}

proof fn lemma_decoded_trash(s: Seq<u8>, body: Seq<u8>)
    requires
        s == request_header() + (seq![1u8] + body),
    ensures
        split_body(1, body, Platform::MacOs) matches Ok((request, rest)) ==> request_fault(
            request,
        ) is None && s == encoded_request(request) + rest,
{
    if body.len() >= 4 {
        lemma_le_value(body.take(4));
        let count = le_value(body.take(4));
        let after = body.skip(4);
        lemma_split_frames_is_frames(after, count);
        if count <= MAX_ITEMS {
            if let Ok((paths, rest)) = split_frames(after, count) {
                let request = RequestView::Trash(paths);
                let length = le_bytes(paths.len(), 4);
                assert(request_fault(request) is None) by {
                    assert forall|i: int| 0 <= i < paths.len() implies path_fault(
                        #[trigger] paths[i],
                    ) is None by {
                        assert(paths[i].len() <= MAX_PATH_BYTES);
                    }
                }
                assert(s == encoded_request(request) + rest) by {
                    assert(body.take(4) == length);
                    assert(body =~= length + after);
                    let listed = frames(paths);
                    assert(after == listed + rest);
                    assert(request_header() + (seq![1u8] + (length + (listed + rest))) =~= (
                    request_header() + (seq![1u8] + length + listed)) + rest);
                }
            }
        }
    }
}

proof fn lemma_decoded_restore(s: Seq<u8>, body: Seq<u8>)
    requires
        s == request_header() + (seq![2u8] + body),
    ensures
        split_body(2, body, Platform::MacOs) matches Ok((request, rest)) ==> request_fault(
            request,
        ) is None && s == encoded_request(request) + rest,
{
    lemma_split_frame_is_frame(body);
    if let Ok((path, rest)) = split_frame(body) {
        let request = RequestView::Restore(path);
        assert(s =~= encoded_request(request) + rest);
    }
}

proof fn lemma_decoded_origins(s: Seq<u8>, body: Seq<u8>)
    requires
        s == request_header() + (seq![3u8] + body),
    ensures
        split_body(3, body, Platform::MacOs) matches Ok((request, rest)) ==> request_fault(
            request,
        ) is None && s == encoded_request(request) + rest,
{
    if body.len() >= 4 {
        lemma_le_value(body.take(4));
        let count = le_value(body.take(4));
        let after = body.skip(4);
        if count <= MAX_ITEMS {
            lemma_split_names_is_names(after, count, 0);
            if let Ok((names, rest)) = split_names(after, count, 0) {
                let request = RequestView::RemoveRestoreOrigins(names);
                lemma_counting_ok(names);
                assert(names_fault(names) is None);
                assert(body =~= le_bytes(names.len(), 4) + (frames(name_bytes(names)) + rest));
                assert(s =~= encoded_request(request) + rest);
            }
        }
    }
}

/// Whatever is read as a request may be sent, and the bytes that were read are
/// exactly those that encode it: no two encodings stand for one request.
pub proof fn lemma_decoded_request_is_encoded(s: Seq<u8>, platform: Platform)
    ensures
        split_request(s, platform) matches Ok((request, rest)) ==> request_fault(request) is None
            && s == encoded_request(request) + rest,
{
    if s.len() >= 4 && s.take(3) == request_header() {
        let opcode = s.skip(3).take(1)[0];
        let body = s.skip(3).skip(1);
        assert(s =~= request_header() + (seq![opcode] + body));
        assert(split_request(s, platform) == split_body(opcode, body, platform));
        if opcode == 1 {
            lemma_decoded_trash(s, body);
        } else if opcode == 2 {
            lemma_decoded_restore(s, body);
        } else if opcode == 3 {
            lemma_decoded_origins(s, body);
        }
    }
}

/// A response is read back with its count and with the bytes of the error
/// text that were sent, and whatever follows it is left unread.
pub proof fn lemma_response_round_trip(response: ResponseView, rest: Seq<u8>)
    ensures
        split_response(encoded_response(response) + rest) == Ok::<
            ((nat, Option<Seq<u8>>), Seq<u8>),
            ProtocolError,
        >(
            (
                (
                    response.completed as nat,
                    match response.error {
                        Some(error) => Some(sent_error(error)),
                        None => None,
                    },
                ),
                rest,
            ),
        ),
{
    let head = le_bytes(response.completed as nat, 8);
    lemma_le_bytes(response.completed as nat, 8);
    lemma_le_limits();
    match response.error {
        Some(error) => {
            let tail = frame(sent_error(error)) + rest;
            let s = encoded_response(response) + rest;
            assert(s =~= head + (seq![1u8] + tail));
            assert(s.take(8) =~= head);
            assert(s.skip(8) =~= seq![1u8] + tail);
            assert((seq![1u8] + tail).take(1)[0] == 1u8);
            assert((seq![1u8] + tail).skip(1) =~= tail);
            lemma_frame_round_trip(sent_error(error), rest);
        },
        None => {
            let s = encoded_response(response) + rest;
            assert(s =~= head + (seq![0u8] + rest));
            assert(s.take(8) =~= head);
            assert(s.skip(8) =~= seq![0u8] + rest);
            assert((seq![0u8] + rest).take(1)[0] == 0u8);
            assert((seq![0u8] + rest).skip(1) =~= rest);
        },
    }
}

/// What was read of the first bytes, when more bytes follow.
pub open spec fn with_more<T>(r: Result<(T, Seq<u8>), ProtocolError>, more: Seq<u8>) -> Result<
    (T, Seq<u8>),
    ProtocolError,
> {
    match r {
        Ok((item, rest)) => Ok((item, rest + more)),
        Err(e) => Err(e),
    }
}

proof fn lemma_input_stands(s: Seq<u8>, n: nat, more: Seq<u8>)
    requires
        n <= s.len(),
    ensures
        split_input(s + more, n) == with_more(split_input(s, n), more),
{
    assert((s + more).take(n as int) =~= s.take(n as int));
    assert((s + more).skip(n as int) =~= s.skip(n as int) + more);
}

proof fn lemma_frame_stands(s: Seq<u8>, more: Seq<u8>)
    ensures
        split_frame(s) != Err::<(Seq<u8>, Seq<u8>), ProtocolError>(end_of_input()) ==> split_frame(
            s + more,
        ) == with_more(split_frame(s), more),
{
    if s.len() >= 4 {
        lemma_input_stands(s, 4, more);
        let len = le_value(s.take(4));
        let after = s.skip(4);
        if len <= after.len() {
            lemma_input_stands(after, len, more);
        }
    }
}

proof fn lemma_frames_stand(s: Seq<u8>, n: nat, more: Seq<u8>)
    ensures
        split_frames(s, n) != Err::<(Seq<Seq<u8>>, Seq<u8>), ProtocolError>(end_of_input())
            ==> split_frames(s + more, n) == with_more(split_frames(s, n), more),
    decreases n,
{
    if n > 0 {
        lemma_frame_stands(s, more);
        if let Ok((_, rest)) = split_frame(s) {
            lemma_frames_stand(rest, (n - 1) as nat, more);
        }
    }
}

proof fn lemma_names_stand(s: Seq<u8>, n: nat, total: nat, more: Seq<u8>)
    ensures
        split_names(s, n, total) != Err::<(Seq<Seq<char>>, Seq<u8>), ProtocolError>(end_of_input())
            ==> split_names(s + more, n, total) == with_more(split_names(s, n, total), more),
    decreases n,
{
    if n > 0 {
        lemma_frame_stands(s, more);
        if let Ok((bytes, rest)) = split_frame(s) {
            lemma_names_stand(rest, (n - 1) as nat, total + bytes.len(), more);
        }
    }
}

/// Whether a request was read or refused, for whatever reason but the end of the
/// input, does not depend on what follows. So input may be read piece by piece
/// until that is known.
pub proof fn lemma_decision_stands(s: Seq<u8>, more: Seq<u8>, platform: Platform)
    requires
        split_request(s, platform) != Err::<(RequestView, Seq<u8>), ProtocolError>(
            end_of_input(),
        ),
    ensures
        split_request(s + more, platform) == with_more(split_request(s, platform), more),
{
    lemma_input_stands(s, 3, more);
    if s.take(3) == request_header() {
        let behind = s.skip(3);
        lemma_input_stands(behind, 1, more);
        let opcode = behind.take(1)[0];
        let body = behind.skip(1);
        if opcode == 2 {
            lemma_frame_stands(body, more);
        } else if opcode == 1 || (opcode == 3 && platform == Platform::MacOs) {
            lemma_input_stands(body, 4, more);
            let count = le_value(body.take(4));
            if opcode == 1 {
                lemma_frames_stand(body.skip(4), count, more);
            } else {
                lemma_names_stand(body.skip(4), count, 0, more);
            }
        }
    }
}

/// An error text that is sent whole is valid UTF-8 and decodes to itself.
pub proof fn lemma_short_error_survives(error: Seq<char>)
    requires
        encode_utf8(error).len() <= MAX_ERROR_BYTES,
    ensures
        valid_utf8(sent_error(error)),
        decode_utf8(sent_error(error)) == error,
{
    vstd::utf8::encode_utf8_valid_utf8(error);
    vstd::utf8::encode_utf8_decode_utf8(error);
}

} // verus!
