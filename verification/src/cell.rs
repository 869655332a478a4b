//! The guarded cell: one record behind a shared/exclusive access guard,
//! serialized in full for persistence whenever an exclusive access ends.
use crate::codec::{bounded_view, encode_record, encode_spec, lemma_round_trip, parse_record,
    parse_spec};
use crate::record::{Information, InformationView};
use crate::StoreError;
use vstd::prelude::*;

verus! {

/// Observes that every field of an in-memory record fits the machine's
/// sizes, by measuring each one.
fn note_bounds(rec: &Information)
    ensures
        bounded_view(rec@),
{
    let _name_len = rec.name.as_str().unicode_len();
    let _data_len = rec.data.as_str().unicode_len();
    let _tag_count = rec.tags.len();
    let mut k: usize = 0;
    while k < rec.tags.len()
        invariant
            k <= rec.tags@.len(),
            forall|m: int| 0 <= m < k ==> #[trigger] rec.tags@[m]@.len() <= usize::MAX,
        decreases rec.tags@.len() - k,
    {
        let _tag_len = rec.tags[k].as_str().unicode_len();
        k = k + 1;
    }
    proof {
        assert(forall|m: int|
            0 <= m < rec@.tags.len() ==> #[trigger] rec@.tags[m].len() == rec.tags@[m]@.len());
    }
}

/// A single record behind an access guard with write-through persistence.
///
/// Shared access is any number of `&`-borrows handed out by [`Locked::read`];
/// exclusive access is a session opened by [`Locked::write`] and closed by
/// [`Locked::release`], which hands back the serialized form that the caller
/// persists to the backing file in full. While no exclusive session is open,
/// the content last handed out for persistence deserializes to the in-memory
/// value; during a session the two may diverge. A concurrent caller would
/// block for its turn; in this sequential rendering each operation instead
/// requires that no conflicting access is held.
pub struct Locked {
    exclusive: bool,
    value: Information,
    persisted: Ghost<Seq<char>>,
}

impl Locked {
    /// The in-memory record.
    pub closed spec fn value(self) -> InformationView {
        self.value@
    }

    /// Whether an exclusive session is open.
    pub closed spec fn is_exclusive(self) -> bool {
        self.exclusive
    }

    /// The serialized content last handed out for persistence: the model
    /// of the backing file.
    pub closed spec fn persisted(self) -> Seq<char> {
        self.persisted@
    }

    /// Outside an exclusive session, the persisted content deserializes to
    /// the in-memory value: disk and memory agree.
    pub open spec fn wf(self) -> bool {
        !self.is_exclusive() ==> parse_spec(self.persisted()) == Some(self.value())
    }

    /// A fresh cell around `value`, with the serialized form that must be
    /// written to the new backing file before anything else touches it.
    pub fn new(value: Information) -> (r: (Locked, String))
        ensures
            r.0.wf(),
            !r.0.is_exclusive(),
            r.0.value() == value@,
            r.1@ == encode_spec(value@),
            r.0.persisted() == r.1@,
    {
        note_bounds(&value);
        let payload = encode_record(&value);
        proof {
            lemma_round_trip(value@);
        }
        let cell = Locked { exclusive: false, value, persisted: Ghost(payload@) };
        (cell, payload)
    }

    /// A cell rebuilt from the contents of an existing backing file.
    /// Fails exactly when the contents do not deserialize to a record.
    pub fn load(contents: &str) -> (r: Result<Locked, StoreError>)
        ensures
            match r {
                Ok(cell) => parse_spec(contents@) == Some(cell.value()) && cell.wf()
                    && !cell.is_exclusive() && cell.persisted() == contents@,
                Err(e) => parse_spec(contents@) is None && e == StoreError::DeserializeError,
            },
    {
        match parse_record(contents) {
            Some(rec) => Ok(Locked { exclusive: false, value: rec, persisted: Ghost(contents@) }),
            None => Err(StoreError::DeserializeError),
        }
    }

    /// Shared, read-only access to the in-memory value. Any number of these
    /// borrows may live at once; none while an exclusive session is open.
    pub fn read(&self) -> (r: &Information)
        requires
            !self.is_exclusive(),
        ensures
            r@ == self.value(),
    {
        &self.value
    }

    /// Opens the exclusive session: mutable access until [`Locked::release`].
    pub fn write(&mut self)
        requires
            !old(self).is_exclusive(),
        ensures
            final(self).is_exclusive(),
            final(self).value() == old(self).value(),
            final(self).persisted() == old(self).persisted(),
    {
        self.exclusive = true;
    }

    /// Replaces the title. Only inside an exclusive session.
    pub fn set_name(&mut self, name: String)
        requires
            old(self).is_exclusive(),
        ensures
            final(self).is_exclusive(),
            final(self).value() == (InformationView { name: name@, ..old(self).value() }),
            final(self).persisted() == old(self).persisted(),
    {
        self.value.name = name;
    }

    /// Replaces the body text. Only inside an exclusive session.
    pub fn set_data(&mut self, data: String)
        requires
            old(self).is_exclusive(),
        ensures
            final(self).is_exclusive(),
            final(self).value() == (InformationView { data: data@, ..old(self).value() }),
            final(self).persisted() == old(self).persisted(),
    {
        self.value.data = data;
    }

    /// Replaces the tag list. Only inside an exclusive session.
    pub fn set_tags(&mut self, tags: Vec<String>)
        requires
            old(self).is_exclusive(),
        ensures
            final(self).is_exclusive(),
            final(self).value() == (InformationView {
                tags: tags@.map_values(|t: String| t@),
                ..old(self).value()
            }),
            final(self).persisted() == old(self).persisted(),
    {
        self.value.tags = tags;
    }

    /// Closes the exclusive session. The current in-memory value is
    /// serialized in full (not appended, not diffed) and handed back; the
    /// caller writes it to the backing file, which restores the agreement
    /// of disk and memory.
    pub fn release(&mut self) -> (payload: String)
        requires
            old(self).is_exclusive(),
        ensures
            !final(self).is_exclusive(),
            final(self).value() == old(self).value(),
            payload@ == encode_spec(old(self).value()),
            final(self).persisted() == payload@,
            final(self).wf(),
    {
        note_bounds(&self.value);
        let payload = encode_record(&self.value);
        proof {
            lemma_round_trip(self.value@);
        }
        self.exclusive = false;
        self.persisted = Ghost(payload@);
        payload
    }
}

/// One step of the guard protocol, as the operations above allow it:
/// opening a session, editing inside it, or closing it.
pub open spec fn guard_step(pre: Locked, post: Locked) -> bool {
    ||| (!pre.is_exclusive() && post.is_exclusive() && post.value() == pre.value()
        && post.persisted() == pre.persisted())
    ||| (pre.is_exclusive() && post.is_exclusive() && post.persisted() == pre.persisted())
    ||| (pre.is_exclusive() && !post.is_exclusive() && post.value() == pre.value()
        && post.persisted() == encode_spec(pre.value()))
}

/// Durability: every step of the guard protocol preserves well-formedness,
/// so whenever no exclusive session is open, the persisted content
/// deserializes to the in-memory value.
pub proof fn lemma_guard_step_preserves_wf(pre: Locked, post: Locked)
    requires
        pre.wf(),
        guard_step(pre, post),
        bounded_view(pre.value()),
    ensures
        post.wf(),
{
    if pre.is_exclusive() && !post.is_exclusive() {
        lemma_round_trip(pre.value());
    }
}

/// Mutual exclusion: the step that opens an exclusive session starts from a
/// state in which none is open, so an exclusive access is never granted
/// beside another one.
pub proof fn lemma_exclusive_granted_from_idle(pre: Locked, post: Locked)
    requires
        guard_step(pre, post),
        !pre.is_exclusive(),
        post.is_exclusive(),
    ensures
        post.value() == pre.value(),
        post.persisted() == pre.persisted(),
{
}

} // verus!
