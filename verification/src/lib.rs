//! Skill catalogue handling: the skill model, the rendering of the skills
//! section, the Skills-over-MCP index loader and explicit skill injection.

pub mod model;
pub mod order;
pub mod path;
pub mod render;
pub mod text;
pub mod injection;
pub mod mcp_loader;
