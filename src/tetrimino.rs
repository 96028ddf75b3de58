use vstd::prelude::*;
use crate::cube::{position_in, Cube};
use crate::point::{Point, representable};
use crate::scene::Scene;

verus! {

/// The seven piece shapes.
#[derive(Clone, Copy, Debug, PartialEq, Eq, Structural)]
pub enum TetriminoLetter {
    T,
    O,
    L,
    J,
    Z,
    S,
    I,
}

/// The one-letter name of a shape.
pub open spec fn letter_name(l: TetriminoLetter) -> Seq<char> {
    match l {
        TetriminoLetter::T => seq!['T'],
        TetriminoLetter::O => seq!['O'],
        TetriminoLetter::L => seq!['L'],
        TetriminoLetter::J => seq!['J'],
        TetriminoLetter::Z => seq!['Z'],
        TetriminoLetter::S => seq!['S'],
        TetriminoLetter::I => seq!['I'],
    }
}

impl TetriminoLetter {
    /// The shape's letter as a string.
    pub fn name(&self) -> (r: String)
        ensures
            r@ == letter_name(*self),
    {
        let s = match self {
            TetriminoLetter::T => "T",
            TetriminoLetter::O => "O",
            TetriminoLetter::L => "L",
            TetriminoLetter::J => "J",
            TetriminoLetter::Z => "Z",
            TetriminoLetter::S => "S",
            TetriminoLetter::I => "I",
        };
        proof {
            reveal_strlit("T");
            reveal_strlit("O");
            reveal_strlit("L");
            reveal_strlit("J");
            reveal_strlit("Z");
            reveal_strlit("S");
            reveal_strlit("I");
        }
        s.to_string()
    }
}

/// A falling piece: a shape, the scene object that anchors and pivots it, and
/// its four cubes.
#[derive(Debug)]
pub struct Tetrimino {
    pub letter: TetriminoLetter,
    pub root: String,
    pub cubes: [Cube; 4],
}

impl Tetrimino {
    /// The names of the four cubes, in order.
    pub open spec fn cube_names(&self) -> Seq<Seq<char>> {
        self.cubes@.map_values(|c: Cube| c@)
    }

    /// The snapshot knows the root and every cube of the piece.
    pub open spec fn on_scene(&self, scene: Scene) -> bool {
        &&& scene.has(self.root@)
        &&& forall|i: int| 0 <= i < 4 ==> scene.has(#[trigger] self.cubes@[i]@)
    }

    /// The recorded positions of the four cubes, in order.
    pub open spec fn cube_positions_in(&self, scene: Scene) -> Seq<Point> {
        Seq::new(4, |i: int| position_in(scene, self.cubes@[i]@))
    }

    pub fn new(letter: TetriminoLetter, root: String, cubes: [String; 4]) -> (r: Tetrimino)
        ensures
            r.letter == letter,
            r.root@ == root@,
            forall|i: int| 0 <= i < 4 ==> (#[trigger] r.cubes@[i])@ == cubes@[i]@,
    {
        let c = [
            Cube::new(cubes[0].clone()),
            Cube::new(cubes[1].clone()),
            Cube::new(cubes[2].clone()),
            Cube::new(cubes[3].clone()),
        ];
        Tetrimino { letter, root, cubes: c }
    }

    /// The name of the anchor object.
    pub fn root(&self) -> (r: String)
        ensures
            r@ == self.root@,
    {
        self.root.clone()
    }

    /// Where the anchor object stands in the scene.
    pub fn get_root_position(&self, scene: &Scene) -> (r: Point)
        requires
            scene.wf(),
            scene.has(self.root@),
        ensures
            r == position_in(*scene, self.root@),
            representable(r),
    {
        match scene.position(&self.root) {
            Some(p) => p,
            None => Point::default(),
        }
    }

    /// Where the four cubes stand in the scene, in order.
    pub fn get_cube_positions(&self, scene: &Scene) -> (r: [Point; 4])
        requires
            scene.wf(),
            self.on_scene(*scene),
        ensures
            r@ == self.cube_positions_in(*scene),
            forall|i: int| 0 <= i < 4 ==> representable(#[trigger] r@[i]),
    {
        let r = [
            self.cubes[0].get_position(scene),
            self.cubes[1].get_position(scene),
            self.cubes[2].get_position(scene),
            self.cubes[3].get_position(scene),
        ];
        assert(r@ =~= self.cube_positions_in(*scene));
        r
    }
}

} // verus!
