use vstd::prelude::*;
use crate::point::{Point, representable};

verus! {

/// How a translation is applied to a scene object.
#[derive(Clone, Copy, Debug, PartialEq, Eq, Structural)]
pub enum Move {
    /// The given coordinates are the object's new position.
    Absolute,
    /// The given coordinates are added to the object's position.
    Relative,
}

/// An instruction for the scene host.
#[derive(Debug, PartialEq, Eq)]
pub enum Command {
    /// Translate the named objects in the plane (the depth stays 0).
    Translate { names: Vec<String>, x: i32, y: i32, mode: Move },
    /// Remove the named objects from the scene.
    Delete { names: Vec<String> },
    /// Let the host redraw after a batch of changes.
    Refresh,
}

/// Mathematical form of a [`Command`].
pub ghost enum CommandView {
    Translate { names: Seq<Seq<char>>, x: i32, y: i32, mode: Move },
    Delete { names: Seq<Seq<char>> },
    Refresh,
}

/// The names held by a list of strings.
pub open spec fn names_view(v: Seq<String>) -> Seq<Seq<char>> {
    v.map_values(|s: String| s@)
}

impl View for Command {
    type V = CommandView;

    open spec fn view(&self) -> CommandView {
        match self {
            Command::Translate { names, x, y, mode } => CommandView::Translate {
                names: names_view(names@),
                x: *x,
                y: *y,
                mode: *mode,
            },
            Command::Delete { names } => CommandView::Delete { names: names_view(names@) },
            Command::Refresh => CommandView::Refresh,
        }
    }
}

/// A one-element list of names.
pub fn single_name(name: &String) -> (r: Vec<String>)
    ensures
        names_view(r@) == seq![name@],
{
    let mut r: Vec<String> = Vec::new();
    r.push(name.clone());
    assert(names_view(r@) =~= seq![name@]);
    r
}

/// The commands issued to the scene, in order.
pub struct CommandLog {
    commands: Vec<Command>,
}

impl View for CommandLog {
    type V = Seq<CommandView>;

    closed spec fn view(&self) -> Seq<CommandView> {
        self.commands@.map_values(|c: Command| c@)
    }
}

impl CommandLog {
    pub fn new() -> (r: CommandLog)
        ensures
            r@ == Seq::<CommandView>::empty(),
    {
        let r = CommandLog { commands: Vec::new() };
        assert(r@ =~= Seq::<CommandView>::empty());
        r
    }

    /// Appends one command.
    pub fn push(&mut self, c: Command)
        ensures
            final(self)@ == old(self)@.push(c@),
    {
        self.commands.push(c);
        assert(self@ =~= old(self)@.push(c@));
    }

    /// The commands issued so far, oldest first.
    pub fn commands(&self) -> (r: &Vec<Command>)
        ensures
            r@.map_values(|c: Command| c@) == self@,
    {
        &self.commands
    }

    /// Hands out the recorded commands and leaves the log empty.
    pub fn take(&mut self) -> (r: Vec<Command>)
        ensures
            r@.map_values(|c: Command| c@) == old(self)@,
            final(self)@ == Seq::<CommandView>::empty(),
    {
        let mut r: Vec<Command> = Vec::new();
        core::mem::swap(&mut r, &mut self.commands);
        assert(self@ =~= Seq::<CommandView>::empty());
        r
    }
}

/// The position last recorded for `name`, if any.
pub open spec fn lookup(entries: Seq<(Seq<char>, Point)>, name: Seq<char>) -> Option<Point>
    decreases entries.len(),
{
    if entries.len() == 0 {
        None
    } else if entries.last().0 == name {
        Some(entries.last().1)
    } else {
        lookup(entries.drop_last(), name)
    }
}

proof fn lemma_lookup_representable(entries: Seq<(Seq<char>, Point)>, name: Seq<char>)
    requires
        forall|i: int| 0 <= i < entries.len() ==> representable(#[trigger] entries[i].1),
    ensures
        lookup(entries, name) matches Some(p) ==> representable(p),
    decreases entries.len(),
{
    if entries.len() > 0 && entries.last().0 != name {
        let d = entries.drop_last();
        assert forall|i: int| 0 <= i < d.len() implies representable(#[trigger] d[i].1) by {
            assert(d[i] == entries[i]);
        }
        lemma_lookup_representable(d, name);
    }
}

/// A snapshot of where the scene's objects stand in the playfield plane.
///
/// Every recorded position is exactly representable by the host.
pub struct Scene {
    objects: Vec<(String, Point)>,
}

impl Scene {
    /// The snapshot as a list of (name, position) records, oldest first.
    pub closed spec fn entries(&self) -> Seq<(Seq<char>, Point)> {
        self.objects@.map_values(|e: (String, Point)| (e.0@, e.1))
    }

    /// The position of the named object.
    pub open spec fn position_of(&self, name: Seq<char>) -> Option<Point> {
        lookup(self.entries(), name)
    }

    /// The named object is in the snapshot.
    pub open spec fn has(&self, name: Seq<char>) -> bool {
        self.position_of(name) is Some
    }

    pub closed spec fn wf(&self) -> bool {
        forall|i: int| 0 <= i < self.objects@.len() ==> representable(#[trigger] self.objects@[i].1)
    }

    /// Positions of a well-formed snapshot are exactly representable.
    pub proof fn lemma_positions_representable(&self, name: Seq<char>)
        requires
            self.wf(),
        ensures
            self.position_of(name) matches Some(p) ==> representable(p),
    {
        let e = self.entries();
        assert forall|i: int| 0 <= i < e.len() implies representable(#[trigger] e[i].1) by {
            assert(e[i].1 == self.objects@[i].1);
        }
        lemma_lookup_representable(e, name);
    }

    /// An empty snapshot.
    pub fn new() -> (r: Scene)
        ensures
            r.wf(),
            forall|n: Seq<char>| !r.has(n),
    {
        let r = Scene { objects: Vec::new() };
        assert(r.entries() =~= Seq::<(Seq<char>, Point)>::empty());
        r
    }

    /// Records the position of the named object.
    pub fn set_position(&mut self, name: String, position: Point)
        requires
            old(self).wf(),
            representable(position),
        ensures
            final(self).wf(),
            final(self).position_of(name@) == Some(position),
            forall|n: Seq<char>| n != name@ ==> final(self).position_of(n) == old(self).position_of(n),
    {
        let ghost n0 = name@;
        self.objects.push((name, position));
        assert(self.entries().drop_last() =~= old(self).entries());
        assert(self.entries().last() == (n0, position));
    }

    /// The position of the named object, if the snapshot has it.
    pub fn position(&self, name: &String) -> (r: Option<Point>)
        requires
            self.wf(),
        ensures
            r == self.position_of(name@),
            r matches Some(p) ==> representable(p),
    {
        proof {
            self.lemma_positions_representable(name@);
        }
        let mut i: usize = self.objects.len();
        assert(self.entries().subrange(0, i as int) =~= self.entries());
        while i > 0
            invariant
                i <= self.objects@.len(),
                self.wf(),
                lookup(self.entries(), name@) == lookup(self.entries().subrange(0, i as int), name@),
            decreases i,
        {
            let ghost s = self.entries().subrange(0, i as int);
            assert(s.last() == (self.objects@[i - 1].0@, self.objects@[i - 1].1));
            if self.objects[i - 1].0 == *name {
                assert(representable(self.objects@[i - 1].1));
                return Some(self.objects[i - 1].1);
            }
            assert(s.drop_last() =~= self.entries().subrange(0, i - 1));
            i = i - 1;
        }
        None
    }
}

} // verus!
