use vstd::prelude::*;
use crate::point::{Point, representable};
use crate::scene::{single_name, Command, CommandLog, CommandView, Move, Scene};

verus! {

/// One occupancy unit: a reference, by name, to an object of the scene.
#[derive(Debug)]
pub struct Cube {
    pub name: String,
}

impl View for Cube {
    type V = Seq<char>;

    open spec fn view(&self) -> Seq<char> {
        self.name@
    }
}

impl PartialEq for Cube {
    fn eq(&self, other: &Cube) -> (r: bool) {
        self.name == other.name
    }
}

impl vstd::std_specs::cmp::PartialEqSpecImpl for Cube {
    open spec fn obeys_eq_spec() -> bool {
        true
    }

    open spec fn eq_spec(&self, other: &Cube) -> bool {
        self.name@ == other.name@
    }
}

/// The recorded position of `name`, or (0, 0) when the snapshot lacks it.
pub open spec fn position_in(scene: Scene, name: Seq<char>) -> Point {
    match scene.position_of(name) {
        Some(p) => p,
        None => Point { x: 0, y: 0 },
    }
}

impl Cube {
    pub fn new(name: String) -> (r: Cube)
        ensures
            r@ == name@,
    {
        Cube { name }
    }

    /// A second reference to the same scene object.
    pub fn duplicate(&self) -> (r: Cube)
        ensures
            r@ == self@,
    {
        Cube { name: self.name.clone() }
    }

    /// Where the cube stands in the scene.
    pub fn get_position(&self, scene: &Scene) -> (r: Point)
        requires
            scene.wf(),
            scene.has(self@),
        ensures
            r == position_in(*scene, self@),
            representable(r),
    {
        match scene.position(&self.name) {
            Some(p) => p,
            None => Point::default(),
        }
    }

    /// Asks the scene to move the cube to `position`, or by `position` when
    /// `mode` is `Relative`.
    pub fn move_to(&self, position: Point, mode: Move, log: &mut CommandLog)
        ensures
            final(log)@ == old(log)@.push(
                CommandView::Translate { names: seq![self@], x: position.x, y: position.y, mode },
            ),
    {
        log.push(Command::Translate { names: single_name(&self.name), x: position.x, y: position.y, mode });
    }
}

} // verus!
