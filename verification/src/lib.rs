//! A reconciler for declarative user interfaces.
//!
//! An [`Element`] tree describes the interface that should exist. The
//! reconciler keeps a tree of [`Instance`]s, one per live element, and on each
//! pass aligns that tree with the elements it is given, recording the
//! `Mount`, `Mutate` and `Unmount` commands that bring the host's containers
//! into line.

pub mod builtin;
pub mod bus;
pub mod key;
pub mod laws;
pub mod ledger;
pub mod manager;
pub mod compositor;
pub mod context;
pub mod element;
pub mod instance;
pub mod reference;
pub mod render;
pub mod renderer;

pub use builtin::{Builtin, Mutator};
pub use bus::{Bus, Task};
pub use compositor::{Command, CommandBuffer, Compositor, ContainerID, Operation};
pub use context::{ContextFrame, ContextValue};
pub use element::{Element, Node};
pub use instance::{Instance, Link, Memory, Slot};
pub use key::Key;
pub use manager::{Component, Effect, Manager, State};
pub use reference::{Cells, Reference};
pub use render::{Render, RenderError, Renderer};
pub use renderer::{render, Disposable, Outcome};
