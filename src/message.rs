//! The values that a `send_to` command carries: a message under construction
//! and the session it is addressed to.
use vstd::prelude::*;

verus! {

/// The value that a list of tag-value pairs gives to `tag`: the last one written wins.
pub open spec fn field_value(fields: Seq<(i32, Seq<char>)>, tag: i32) -> Option<Seq<char>>
    decreases fields.len(),
{
    if fields.len() == 0 {
        None
    } else if fields.last().0 == tag {
        Some(fields.last().1)
    } else {
        field_value(fields.drop_last(), tag)
    }
}

/// A FIX application message under construction: its tag-value fields in the
/// order in which they were set.
#[derive(Debug, PartialEq, Eq)]
pub struct Message {
    fields: Vec<(i32, String)>,
}

impl View for Message {
    type V = Seq<(i32, Seq<char>)>;

    closed spec fn view(&self) -> Seq<(i32, Seq<char>)> {
        self.fields@.map_values(|p: (i32, String)| (p.0, p.1@))
    }
}

impl Message {
    pub fn new() -> (r: Message)
        ensures
            r@ == Seq::<(i32, Seq<char>)>::empty(),
    {
        let r = Message { fields: Vec::new() };
        assert(r@ =~= Seq::<(i32, Seq<char>)>::empty());
        r
    }

    /// Appends the field `tag`=`value`. Earlier fields stay; where a tag is set
    /// more than once, `get_field` reads the value set last.
    pub fn set_field(&mut self, tag: i32, value: String)
        ensures
            final(self)@ == old(self)@.push((tag, value@)),
    {
        let ghost before = self@;
        self.fields.push((tag, value));
        assert(self@ =~= before.push((tag, value@)));
    }

    /// The value of `tag`, if it was set.
    pub fn get_field(&self, tag: i32) -> (r: Option<String>)
        ensures
            r is Some <==> field_value(self@, tag) is Some,
            r is Some ==> r->0@ == field_value(self@, tag)->0,
    {
        let mut i: usize = self.fields.len();
        assert(self@.take(i as int) =~= self@);
        while i > 0
            invariant
                i <= self.fields@.len(),
                field_value(self@, tag) == field_value(self@.take(i as int), tag),
            decreases i,
        {
            assert(self@.take(i as int).drop_last() =~= self@.take(i - 1));
            if self.fields[i - 1].0 == tag {
                return Some(self.fields[i - 1].1.clone());
            }
            i = i - 1;
        }
        None
    }

    /// Number of fields set, a tag set twice counting twice.
    pub fn len(&self) -> (r: usize)
        ensures
            r == self@.len(),
    {
        self.fields.len()
    }

    /// The `i`-th field set.
    pub fn field_at(&self, i: usize) -> (r: (i32, &String))
        requires
            i < self@.len(),
        ensures
            r.0 == self@[i as int].0,
            r.1@ == self@[i as int].1,
    {
        (self.fields[i].0, &self.fields[i].1)
    }
}

/// The four strings that name a FIX session.
#[derive(Debug, PartialEq, Eq)]
pub struct SessionId {
    pub begin_string: String,
    pub sender_comp_id: String,
    pub target_comp_id: String,
    pub session_qualifier: String,
}

impl View for SessionId {
    type V = (Seq<char>, Seq<char>, Seq<char>, Seq<char>);

    open spec fn view(&self) -> (Seq<char>, Seq<char>, Seq<char>, Seq<char>) {
        (self.begin_string@, self.sender_comp_id@, self.target_comp_id@, self.session_qualifier@)
    }
}

impl SessionId {
    pub fn new(
        begin_string: String,
        sender_comp_id: String,
        target_comp_id: String,
        session_qualifier: String,
    ) -> (r: SessionId)
        ensures
            r@ == (begin_string@, sender_comp_id@, target_comp_id@, session_qualifier@),
    {
        SessionId { begin_string, sender_comp_id, target_comp_id, session_qualifier }
    }
}

} // verus!
