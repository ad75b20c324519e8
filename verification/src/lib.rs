//! Prompt library core: template rendering, the on-disk formats (Markdown
//! with a YAML-subset frontmatter, YAML-subset recipes, JSON), the library
//! model with its global variable set, and what reaches it from outside:
//! the MCP server's JSON-RPC messages, the REST API's requests and the
//! desktop app's commands.

pub mod text;
pub mod render;
pub mod util;
pub mod json;
pub mod yamlish;
pub mod model;
pub mod storage;
pub mod mcp;
pub mod api;
pub mod settings;
pub mod commands;
