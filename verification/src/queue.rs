//! The message queue: events are numbered in the order in which they are
//! sent and handed to the workers through a channel.

use vstd::prelude::*;

verus! {

/// The sending half of a channel of the `crossbeam-channel` crate.
#[verifier::external_type_specification]
#[verifier::external_body]
#[verifier::reject_recursive_types(T)]
pub struct ExSender<T>(crossbeam_channel::Sender<T>);

/// The receiving half of a channel of the `crossbeam-channel` crate.
#[verifier::external_type_specification]
#[verifier::external_body]
#[verifier::reject_recursive_types(T)]
pub struct ExReceiver<T>(crossbeam_channel::Receiver<T>);

/// What happened.
#[derive(Debug)]
pub enum EventType {
    /// Something to tell the users about.
    Notification(Vec<u8>),
    /// Something to index.
    Indexing(Vec<u8>),
}

/// An event with its number and the time at which it was sent, in
/// milliseconds since the epoch.
#[derive(Debug)]
pub struct Message {
    pub id: i64,
    pub create_time: i64,
    pub evt: EventType,
}

/// Calls `crossbeam_channel::unbounded`, which makes a channel without a
/// limit. Nothing is claimed of the two halves.
#[verifier::external_body]
fn unbounded_channel() -> (r: (
    crossbeam_channel::Sender<Message>,
    crossbeam_channel::Receiver<Message>,
)) {
    crossbeam_channel::unbounded()
}

/// Calls `Sender::send`, which fails where every receiver is gone.
/// Returns whether the message was taken; nothing more is claimed.
#[verifier::external_body]
fn channel_send(sender: &crossbeam_channel::Sender<Message>, msg: Message) -> (sent: bool) {
    sender.send(msg).is_ok()
}

/// Calls `Receiver::try_recv`, which gives a message if one waits.
/// Nothing is claimed of what comes out: other holders of the channel
/// send and receive too.
#[verifier::external_body]
fn channel_try_recv(receiver: &crossbeam_channel::Receiver<Message>) -> (r: Option<Message>) {
    receiver.try_recv().ok()
}

/// Calls `chrono::Utc::now` and gives the time in milliseconds since the
/// epoch. Nothing is claimed of it.
#[verifier::external_body]
fn now_millis() -> (t: i64) {
    chrono::Utc::now().timestamp_millis()
}

/// The number after `id`: one more, and the least number after the
/// greatest.
pub open spec fn next_id(id: i64) -> i64 {
    if id == i64::MAX {
        i64::MIN
    } else {
        (id + 1) as i64
    }
}

/// The number of the first message, given the number of the latest
/// message that was persisted, if any: one more than it, else one.
pub fn initial_sequence(latest: Option<i64>) -> (seq: i64)
    requires
        latest != Some(i64::MAX),
    ensures
        seq == (match latest {
            Some(id) => id + 1,
            None => 1,
        }),
{
    match latest {
        Some(id) => id + 1,
        None => 1,
    }
}

/// The message queue.
#[derive(Debug)]
pub struct MessageQueue {
    sender: crossbeam_channel::Sender<Message>,
    receiver: crossbeam_channel::Receiver<Message>,
    cur_id: i64,
    n_workers: usize,
}

impl MessageQueue {
    /// The number that the next message gets.
    pub closed spec fn next(&self) -> i64 {
        self.cur_id
    }

    /// The number of workers that the queue is for.
    pub closed spec fn workers(&self) -> usize {
        self.n_workers
    }

    /// A queue for `n_workers` workers whose first message gets the
    /// number `seq`.
    pub fn new(n_workers: usize, seq: i64) -> (mq: MessageQueue)
        ensures
            mq.next() == seq,
            mq.workers() == n_workers,
    {
        let (sender, receiver) = unbounded_channel();
        MessageQueue { sender, receiver, cur_id: seq, n_workers }
    }

    /// The number that the next message gets.
    pub fn next_sequence(&self) -> (id: i64)
        ensures
            id == self.next(),
    {
        self.cur_id
    }

    /// The number of workers that the queue is for.
    pub fn worker_count(&self) -> (n: usize)
        ensures
            n == self.workers(),
    {
        self.n_workers
    }

    /// Sends an event. It gets the next number, and the number after it
    /// is the next from then on. Returns the number the event got.
    pub fn send(&mut self, evt: EventType) -> (id: i64)
        ensures
            id == old(self).next(),
            final(self).next() == next_id(old(self).next()),
            final(self).workers() == old(self).workers(),
    {
        let id = self.cur_id;
        self.cur_id = if id == i64::MAX {
            i64::MIN
        } else {
            id + 1
        };
        let msg = stamp(id, now_millis(), evt);
        let _ = channel_send(&self.sender, msg);
        id
    }

    /// Takes a message from the queue, if one waits.
    pub fn receive(&self) -> (r: Option<Message>) {
        channel_try_recv(&self.receiver)
    }
}

/// The message that an event becomes with its number and time.
pub fn stamp(id: i64, create_time: i64, evt: EventType) -> (msg: Message)
    ensures
        msg.id == id,
        msg.create_time == create_time,
        msg.evt == evt,
{
    Message { id, create_time, evt }
}

/// The place of the one queue of a process.
#[derive(Debug)]
pub struct QueueCell {
    slot: Option<MessageQueue>,
}

impl QueueCell {
    /// Whether the queue has been set up.
    pub closed spec fn is_set(&self) -> bool {
        self.slot is Some
    }

    /// The number that the next message of the queue gets.
    pub closed spec fn next(&self) -> i64 {
        self.slot->0.next()
    }

    /// The number of workers that the queue is for.
    pub closed spec fn workers(&self) -> usize {
        self.slot->0.workers()
    }

    /// Whether the queue has been set up.
    pub fn is_initialized(&self) -> (r: bool)
        ensures
            r == self.is_set(),
    {
        self.slot.is_some()
    }

    /// A place without a queue.
    pub fn new() -> (cell: QueueCell)
        ensures
            !cell.is_set(),
    {
        QueueCell { slot: None }
    }
}

/// Sets the queue up, for twelve workers, with the number of its first
/// message taken from the latest message that was persisted. The queue
/// of a process is set up once: the place must not hold a queue yet.
pub fn init_mq(cell: &mut QueueCell, latest: Option<i64>)
    requires
        !old(cell).is_set(),
        latest != Some(i64::MAX),
    ensures
        final(cell).is_set(),
        final(cell).workers() == 12,
        final(cell).next() == (match latest {
            Some(id) => (id + 1) as i64,
            None => 1i64,
        }),
{
    let seq = initial_sequence(latest);
    cell.slot = Some(MessageQueue::new(12, seq));
}

/// The queue, where it has been set up.
pub fn get_mq(cell: &QueueCell) -> (r: Option<&MessageQueue>)
    ensures
        r is Some == cell.is_set(),
        r matches Some(mq) ==> mq.next() == cell.next() && mq.workers() == cell.workers(),
{
    cell.slot.as_ref()
}

impl QueueCell {
    /// Sends an event through the queue, where it has been set up: the
    /// event gets the next number, which is returned. Where no queue has
    /// been set up, nothing is sent.
    pub fn send(&mut self, evt: EventType) -> (r: Option<i64>)
        ensures
            final(self).is_set() == old(self).is_set(),
            !old(self).is_set() ==> r is None,
            old(self).is_set() ==> r == Some(old(self).next()) && final(self).next() == next_id(
                old(self).next(),
            ) && final(self).workers() == old(self).workers(),
    {
        match self.slot.take() {
            None => None,
            Some(mq) => {
                let mut mq = mq;
                let id = mq.send(evt);
                self.slot = Some(mq);
                Some(id)
            },
        }
    }
}

} // verus!
