//! The edit intents the display layer can raise, and the one update
//! step of the owning document's edit loop over its store and its
//! text buffer.  Running the loop, rendering, and persisting its
//! state stay with the surrounding application.

use crate::cube::Cube;
use vstd::prelude::*;

verus! {

/// An edit intent raised against the document.
#[derive(Clone, Debug)]
pub enum Msg {
    NewCube,
    AddNode,
    UpdateBuffer(String),
    WriteBuffer(u64),
    Focus,
}

/// One update step: `UpdateBuffer` replaces the text buffer, `NewCube`
/// names the store after the buffer and clears it, and every other
/// intent leaves store and buffer alone.  A render is always owed
/// afterwards.
pub fn update(cube: &mut Cube, buffer: &mut String, msg: Msg) -> (render: bool)
    ensures
        render,
        match msg {
            Msg::UpdateBuffer(val) => final(buffer)@ == val@ && *final(cube) == *old(cube),
            Msg::NewCube => {
                &&& final(cube).name@ == old(buffer)@
                &&& final(cube).id == old(cube).id
                &&& final(cube).locked == old(cube).locked
                &&& final(cube).entries == old(cube).entries
                &&& final(cube).relation == old(cube).relation
                &&& final(cube).next_entry == old(cube).next_entry
                &&& final(buffer)@ == Seq::<char>::empty()
            },
            _ => *final(cube) == *old(cube) && *final(buffer) == *old(buffer),
        },
{
    match msg {
        Msg::UpdateBuffer(val) => {
            *buffer = val;
            true
        },
        Msg::NewCube => {
            cube.name = buffer.clone();
            *buffer = String::new();
            true
        },
        _ => true,
    }
}

} // verus!
