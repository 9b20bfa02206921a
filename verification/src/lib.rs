pub mod text;
pub mod blocks;
pub mod tools;
pub mod model;
pub mod parser;
pub mod laws;

pub use blocks::{ContentBlock, ParserError, TextContent, ToolParams, ToolUse};
pub use parser::AssistantMessageParser;
pub use tools::{default_tool_names, default_tool_param_names, default_tool_prefixes};
pub use model::{MAX_ACCUMULATOR_SIZE, MAX_PARAM_LENGTH};
