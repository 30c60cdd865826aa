//! The two ends of a channel between executors.
//!
//! A channel is a ring with an id at each end. An end connects by recording
//! the id of its executor; it disconnects by writing the disconnect mark,
//! which the other end sees at its next attempt. The ends never wait: what
//! to do on a full or an empty ring is the caller's decision.
use crate::channels::spsc_queue::make;
use crate::channels::spsc_queue::Consumer;
use crate::channels::spsc_queue::Producer;
use crate::channels::spsc_queue::DISCONNECTED;
use crate::channels::spsc_queue::NEVER_CONNECTED;
use vstd::prelude::*;

verus! {

/// Why an operation on a channel or a mesh did not go through.
pub enum ChannelError<T> {
    /// The ring is full; the value comes back.
    CapacityExceeded(T),
    /// The other end has disconnected; the value comes back.
    PeerDisconnected(T),
    /// The peer index names no channel.
    InvalidArgument,
}

/// What an attempt to receive found.
pub enum Received<T> {
    /// A value.
    Value(T),
    /// Nothing yet; the producer may still send.
    Empty,
    /// Nothing, and the producer has disconnected: the stream has ended.
    EndOfStream,
}

/// The sending end before it is connected.
#[verifier::reject_recursive_types(T)]
pub struct SharedSender<T> {
    producer: Producer<T>,
}

/// The receiving end before it is connected.
#[verifier::reject_recursive_types(T)]
pub struct SharedReceiver<T> {
    consumer: Consumer<T>,
}

/// The sending end of a connected channel.
#[verifier::reject_recursive_types(T)]
pub struct ConnectedSender<T> {
    producer: Producer<T>,
    id: usize,
}

/// The receiving end of a connected channel.
#[verifier::reject_recursive_types(T)]
pub struct ConnectedReceiver<T> {
    consumer: Consumer<T>,
    id: usize,
}

/// What a push that was attempted means to the sender: the value went in,
/// or it comes back because the consumer was gone, or because the ring was
/// full.
pub fn sent<T>(back: Option<T>, consumer_gone: bool) -> (outcome: Result<(), ChannelError<T>>)
    ensures
        outcome == match back {
            None => Ok::<(), ChannelError<T>>(()),
            Some(v) => if consumer_gone {
                Err::<(), ChannelError<T>>(ChannelError::PeerDisconnected(v))
            } else {
                Err::<(), ChannelError<T>>(ChannelError::CapacityExceeded(v))
            },
        },
{
    match back {
        None => Ok(()),
        Some(v) => if consumer_gone {
            Err(ChannelError::PeerDisconnected(v))
        } else {
            Err(ChannelError::CapacityExceeded(v))
        },
    }
}

/// What a pop that was attempted means to the receiver: a value, or nothing
/// yet, or the end of the stream where the producer was gone before the
/// pop.
pub fn received<T>(popped: Option<T>, producer_gone: bool) -> (outcome: Received<T>)
    ensures
        outcome == match popped {
            Some(v) => Received::Value(v),
            None => if producer_gone {
                Received::<T>::EndOfStream
            } else {
                Received::<T>::Empty
            },
        },
{
    match popped {
        Some(v) => Received::Value(v),
        None => if producer_gone {
            Received::EndOfStream
        } else {
            Received::Empty
        },
    }
}

/// Creates a channel over a ring with at least `size` slots.
pub fn new_bounded<T: Send>(size: usize) -> (ends: (SharedSender<T>, SharedReceiver<T>))
    requires
        size <= usize::MAX / 2 + 1,
    ensures
        ends.0.spec_capacity() == ends.1.spec_capacity(),
        crate::channels::spsc_queue::rounded_up(size as int, ends.0.spec_capacity() as int),
{
    let (producer, consumer) = make(size);
    (SharedSender { producer }, SharedReceiver { consumer })
}

impl<T> SharedSender<T> {
    /// Number of slots of the ring.
    pub closed spec fn spec_capacity(&self) -> usize {
        self.producer.spec_capacity()
    }

    /// Connects the sending end for the executor `id`.
    pub fn connect(self, id: usize) -> (sender: ConnectedSender<T>)
        requires
            id != NEVER_CONNECTED,
            id != DISCONNECTED,
        ensures
            sender.spec_id() == id,
            sender.spec_capacity() == self.spec_capacity(),
    {
        self.producer.connect(id);
        ConnectedSender { producer: self.producer, id }
    }
}

impl<T> SharedReceiver<T> {
    /// Number of slots of the ring.
    pub closed spec fn spec_capacity(&self) -> usize {
        self.consumer.spec_capacity()
    }

    /// Connects the receiving end for the executor `id`.
    pub fn connect(self, id: usize) -> (receiver: ConnectedReceiver<T>)
        requires
            id != NEVER_CONNECTED,
            id != DISCONNECTED,
        ensures
            receiver.spec_id() == id,
            receiver.spec_capacity() == self.spec_capacity(),
    {
        self.consumer.connect(id);
        ConnectedReceiver { consumer: self.consumer, id }
    }
}

impl<T> ConnectedSender<T> {
    /// Id of the executor that holds this end.
    pub closed spec fn spec_id(&self) -> usize {
        self.id
    }

    /// Number of slots of the ring.
    pub closed spec fn spec_capacity(&self) -> usize {
        self.producer.spec_capacity()
    }

    /// Id of the executor that holds this end.
    pub fn id(&self) -> (id: usize)
        ensures
            id == self.spec_id(),
    {
        self.id
    }

    /// Id of the executor at the receiving end: 0 while it has not
    /// connected.
    pub fn peer_id(&self) -> (id: usize) {
        self.producer.peer_id()
    }

    /// Sends a value without waiting. The value comes back where the ring
    /// is full or the receiver is gone.
    pub fn try_send(&self, item: T) -> (outcome: Result<(), ChannelError<T>>)
        ensures
            outcome is Ok || outcome == Err::<(), ChannelError<T>>(
                ChannelError::CapacityExceeded(item),
            ) || outcome == Err::<(), ChannelError<T>>(ChannelError::PeerDisconnected(item)),
    {
        let (back, gone) = self.producer.try_push_telling(item);
        sent(back, gone)
    }

    /// Number of values that can be sent before the ring is full, at the
    /// moment of the call.
    pub fn free_space(&self) -> (n: usize) {
        self.producer.free_space()
    }

    /// Closes the sending end: the receiver is told that no value will
    /// follow. Says whether the end was closed already.
    pub fn close(&self) -> (was: bool) {
        self.producer.disconnect()
    }
}

impl<T> ConnectedReceiver<T> {
    /// Id of the executor that holds this end.
    pub closed spec fn spec_id(&self) -> usize {
        self.id
    }

    /// Number of slots of the ring.
    pub closed spec fn spec_capacity(&self) -> usize {
        self.consumer.spec_capacity()
    }

    /// Id of the executor that holds this end.
    pub fn id(&self) -> (id: usize)
        ensures
            id == self.spec_id(),
    {
        self.id
    }

    /// Id of the executor at the sending end: 0 while it has not
    /// connected.
    pub fn peer_id(&self) -> (id: usize) {
        self.consumer.peer_id()
    }

    /// Receives a value without waiting.
    pub fn try_recv(&self) -> (outcome: Received<T>) {
        let gone = self.consumer.producer_disconnected();
        let popped = self.consumer.try_pop();
        received(popped, gone)
    }

    /// Closes the receiving end: the sender's values come back from now
    /// on. Says whether the end was closed already.
    pub fn close(&self) -> (was: bool) {
        self.consumer.disconnect()
    }
}
} // verus!
