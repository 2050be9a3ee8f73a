//! Stream-level flow control toward the peer (RFC 7540 section 5.2): how much
//! the peer is ready to receive, and the data waiting to be sent.

use vstd::prelude::*;
use bytes::Bytes;
use crate::buf::{bytes_len, bytes_split_to, bytes_view};
use super::frames::{has_flag, header_for, BodyModel, Frame, FrameBody, FrameModel, DATA_END_STREAM};

verus! {

/// The flow-control window of a stream.
pub struct Window {
    data_buffer: Option<Bytes>,
    available_size: i64,
}

/// A window as a mathematical value: the pending data and the window size.
pub struct WindowModel {
    pub data_buffer: Option<Seq<u8>>,
    pub available_size: int,
}

impl View for Window {
    type V = WindowModel;

    closed spec fn view(&self) -> WindowModel {
        WindowModel {
            data_buffer: match self.data_buffer {
                Some(b) => Some(bytes_view(b)),
                None => None,
            },
            available_size: self.available_size as int,
        }
    }
}

/// The DATA frame that carries `chunk` on a stream, without padding.
pub open spec fn data_frame(stream_id: u32, flags: u8, chunk: Seq<u8>) -> FrameModel {
    let payload = BodyModel::Data { pad_length: None, data: chunk };
    FrameModel { header: header_for(stream_id, flags, payload), payload }
}

/// The DATA frames that send the first `remaining` bytes of `buf`, at most
/// `max` bytes each; the frame that takes all that is left of the buffer ends
/// the stream.
pub open spec fn data_frames(buf: Seq<u8>, remaining: nat, max: nat, stream_id: u32) -> Seq<FrameModel>
    decreases remaining,
{
    if remaining == 0 || max == 0 {
        Seq::empty()
    } else {
        let take = if remaining < max { remaining } else { max };
        let flags = if remaining <= max && remaining == buf.len() { DATA_END_STREAM } else { 0u8 };
        seq![data_frame(stream_id, flags, buf.take(take as int))]
            + data_frames(buf.skip(take as int), (remaining - take) as nat, max, stream_id)
    }
}

/// The data carried by a sequence of DATA frames, in order.
pub open spec fn frames_data(fs: Seq<FrameModel>) -> Seq<u8>
    decreases fs.len(),
{
    if fs.len() == 0 {
        Seq::empty()
    } else {
        let d = match fs[0].payload {
            BodyModel::Data { data, .. } => data,
            _ => Seq::empty(),
        };
        d + frames_data(fs.drop_first())
    }
}

/// The models of a vector of frames.
pub open spec fn frame_models(fs: Seq<Frame>) -> Seq<FrameModel> {
    fs.map_values(|f: Frame| f@)
}

/// The amount that the data frames of a window send: what is pending, as far
/// as the window allows.
pub open spec fn sendable(buf: Seq<u8>, available: int) -> nat {
    if buf.len() < available { buf.len() } else { available as nat }
}

impl Window {
    /// A window of the given size with nothing pending.
    pub fn new(size: i64) -> (w: Window)
        ensures
            w@ == (WindowModel { data_buffer: None, available_size: size as int }),
    {
        Window { data_buffer: None, available_size: size }
    }

    /// The current window size.
    pub fn available_size(&self) -> (n: i64)
        ensures
            n == self@.available_size,
    {
        self.available_size
    }

    /// Grows (or, for a negative increment, shrinks) the window. A window that
    /// would exceed 2^31 - 1 is refused and left as it was. On success, tells
    /// whether nothing is pending while the window is open.
    pub fn window_update(&mut self, increment: i64) -> (r: Result<bool, ()>)
        requires
            i64::MIN <= old(self)@.available_size + increment <= i64::MAX,
        ensures
            old(self)@.available_size + increment > 2147483647 ==> r is Err && final(self)@ == old(self)@,
            old(self)@.available_size + increment <= 2147483647 ==> {
                &&& r == Ok::<bool, ()>(old(self)@.data_buffer is None && old(self)@.available_size + increment > 0)
                &&& final(self)@ == (WindowModel {
                    data_buffer: old(self)@.data_buffer,
                    available_size: old(self)@.available_size + increment,
                })
            },
    {
        let new_size = self.available_size + increment;
        if new_size > 2147483647 {
            return Err(());
        }
        self.available_size = new_size;
        Ok(!self.data_buffer.is_some() && self.available_size > 0)
    }

    /// Queues data to send; refused while earlier data is still pending.
    pub fn push_data(&mut self, data: Bytes) -> (r: Result<(), ()>)
        ensures
            old(self)@.data_buffer is Some ==> r is Err && final(self)@ == old(self)@,
            old(self)@.data_buffer is None ==> r is Ok && final(self)@ == (WindowModel {
                data_buffer: Some(bytes_view(data)),
                available_size: old(self)@.available_size,
            }),
    {
        if self.data_buffer.is_some() {
            Err(())
        } else {
            self.data_buffer = Some(data);
            Ok(())
        }
    }

    /// Cuts as much of the pending data as the window allows into DATA frames of
    /// at most `max_frame_size` bytes and shrinks the window by that amount.
    /// Returns `None` when the window is closed or nothing is pending.
    pub fn make_data_frames(&mut self, max_frame_size: usize, stream_id: u32) -> (r: Option<Vec<Frame>>)
        requires
            max_frame_size > 0 || old(self)@.available_size <= 0 || old(self)@.data_buffer is None
                || old(self)@.data_buffer.unwrap().len() == 0,
        ensures
            (old(self)@.available_size <= 0 || old(self)@.data_buffer is None) ==> r is None && final(self)@ == old(self)@,
            (old(self)@.available_size > 0 && old(self)@.data_buffer is Some) ==> {
                let buf = old(self)@.data_buffer.unwrap();
                let n = sendable(buf, old(self)@.available_size);
                &&& r matches Some(frames) && frame_models(frames@) == data_frames(buf, n, max_frame_size as nat, stream_id)
                &&& final(self)@.available_size == old(self)@.available_size - n
                &&& final(self)@.data_buffer == (if n == buf.len() { None } else { Some(buf.skip(n as int)) })
            },
    {
        if self.available_size <= 0 {
            return None;
        }
        match self.data_buffer.take() {
            Some(mut data) => {
                let ghost buf = bytes_view(data);
                let ghost n = sendable(buf, self.available_size as int);
                let mut frames: Vec<Frame> = Vec::new();
                let len = bytes_len(&data);
                let avail = self.available_size as u64;
                let mut remaining_bytes: usize = if (len as u64) < avail { len } else { avail as usize };
                assert(remaining_bytes == n);
                let ghost start_size = self.available_size;
                while remaining_bytes > 0
                    invariant
                        remaining_bytes > 0 ==> max_frame_size > 0,
                        remaining_bytes <= bytes_view(data).len(),
                        bytes_view(data).len() <= buf.len(),
                        self.data_buffer is None,
                        buf.len() - bytes_view(data).len() + remaining_bytes == n,
                        bytes_view(data) == buf.skip(buf.len() - bytes_view(data).len()),
                        n <= buf.len(),
                        self.available_size == start_size - (n - remaining_bytes),
                        0 < start_size,
                        n <= start_size,
                        frame_models(frames@) + data_frames(bytes_view(data), remaining_bytes as nat, max_frame_size as nat, stream_id)
                            == data_frames(buf, n, max_frame_size as nat, stream_id),
                    decreases remaining_bytes,
                {
                    let bytes_taken = if remaining_bytes < max_frame_size { remaining_bytes } else { max_frame_size };
                    let mut flags: u8 = 0;
                    if remaining_bytes <= max_frame_size && remaining_bytes == bytes_len(&data) {
                        assert(0u8 | 1u8 == 1u8) by (bit_vector);
                        flags = flags | DATA_END_STREAM;
                    }
                    let ghost before = bytes_view(data);
                    let data_frag = bytes_split_to(&mut data, bytes_taken);
                    assert(bytes_view(data) =~= buf.skip(buf.len() - bytes_view(data).len())) by {
                        assert(before == buf.skip(buf.len() - before.len()));
                        assert(bytes_view(data) == before.skip(bytes_taken as int));
                    }
                    let frame = Frame::new(stream_id, flags, FrameBody::Data { pad_length: None, data: data_frag });
                    let ghost fm = frame@;
                    let ghost prev_frames = frames@;
                    assert(fm == data_frame(stream_id, flags, before.take(bytes_taken as int)));
                    frames.push(frame);
                    assert(frame_models(frames@) =~= frame_models(prev_frames).push(fm));
                    remaining_bytes = remaining_bytes - bytes_taken;
                    self.available_size = self.available_size - bytes_taken as i64;
                    assert(frame_models(frames@) + data_frames(bytes_view(data), remaining_bytes as nat, max_frame_size as nat, stream_id)
                        =~= frame_models(prev_frames) + data_frames(before, (remaining_bytes + bytes_taken) as nat, max_frame_size as nat, stream_id));
                }
                assert(frame_models(frames@) + data_frames(bytes_view(data), 0, max_frame_size as nat, stream_id)
                    =~= frame_models(frames@));
                if bytes_len(&data) > 0 {
                    self.data_buffer = Some(data);
                }
                proof {
                    if n == buf.len() {
                    } else {
                        assert(bytes_view(data) =~= buf.skip(n as int));
                    }
                }
                Some(frames)
            },
            None => None,
        }
    }
}

/// An unpadded DATA frame carrying at least one and at most `max` bytes.
pub open spec fn bounded_data_frame(f: FrameModel, max: nat) -> bool {
    match f.payload {
        BodyModel::Data { data, pad_length } => 0 < data.len() <= max && pad_length is None,
        _ => false,
    }
}

/// The DATA frames of `data_frames` carry exactly the bytes they send, in
/// order, and each carries at least one and at most `max` bytes; the last
/// one ends the stream exactly when all of the buffer is sent, and no other
/// does.
pub proof fn lemma_data_frames_carry(buf: Seq<u8>, remaining: nat, max: nat, stream_id: u32)
    requires
        remaining <= buf.len(),
        max > 0,
    ensures
        frames_data(data_frames(buf, remaining, max, stream_id)) == buf.take(remaining as int),
        forall|i: int| 0 <= i < data_frames(buf, remaining, max, stream_id).len() ==>
            bounded_data_frame(#[trigger] data_frames(buf, remaining, max, stream_id)[i], max),
        forall|i: int| 0 <= i < data_frames(buf, remaining, max, stream_id).len() ==>
            (has_flag((#[trigger] data_frames(buf, remaining, max, stream_id)[i]).header.flags, DATA_END_STREAM)
                <==> (i == data_frames(buf, remaining, max, stream_id).len() - 1 && remaining == buf.len())),
        data_frames(buf, remaining, max, stream_id).len() == 0 <==> remaining == 0,
    decreases remaining,
{
    assert(0u8 & 1u8 != 1u8 && 1u8 & 1u8 == 1u8) by (bit_vector);
    let fs = data_frames(buf, remaining, max, stream_id);
    if remaining == 0 {
        assert(buf.take(0) =~= Seq::<u8>::empty());
    } else {
        let take = if remaining < max { remaining } else { max };
        lemma_data_frames_carry(buf.skip(take as int), (remaining - take) as nat, max, stream_id);
        let rest = data_frames(buf.skip(take as int), (remaining - take) as nat, max, stream_id);
        assert(fs.drop_first() =~= rest);
        assert(buf.take(take as int) + buf.skip(take as int).take(remaining - take) =~= buf.take(remaining as int));
        assert forall|i: int| 0 <= i < fs.len() implies bounded_data_frame(#[trigger] fs[i], max) by {
            if i > 0 {
                assert(fs[i] == rest[i - 1]);
            }
        }
        assert forall|i: int| 0 <= i < fs.len() implies
            (has_flag((#[trigger] fs[i]).header.flags, DATA_END_STREAM) <==> (i == fs.len() - 1 && remaining == buf.len())) by {
            if i > 0 {
                assert(fs[i] == rest[i - 1]);
            }
        }
    }
}

} // verus!
