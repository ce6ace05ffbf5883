use vstd::prelude::*;
use crate::id::UId;

verus! {

/// Options of the 2D application: the id of the canvas element it draws into.
pub struct App2DOptions {
    pub canvas_id: String,
}

/// Marks the example shape entity, carrying its identifier.
pub struct ExampleShape(pub UId);

/// Frame bookkeeping of the 2D application.
pub struct ActiveInfo {
    /// Frames still to render. With automatic animation switched off the scene is updated
    /// only in response to pointer events; an event resets this count rather than updating
    /// the application directly, so that frames stay in step with the display refresh.
    pub remaining_frames: u32,
}

impl ActiveInfo {
    /// Ten frames to render.
    pub fn new() -> (info: Self)
        ensures
            info.remaining_frames == 10,
    {
        ActiveInfo { remaining_frames: 10 }
    }
}

/// Calls the host page can answer.
pub enum SyncMethod {
    GetCmd,
}

/// Kinds of commands the host page sends to the application.
pub enum SyncCmdType {
    Resize,
    Destroy,
}

/// A command from the host page: its kind and its payload as JSON text.
pub struct SyncCmd {
    pub t: SyncCmdType,
    pub d: String,
}

} // verus!
