pub mod models;
pub mod text;
pub mod order;
pub mod search;
pub mod import;
pub mod routes;
pub mod laws;

pub use import::{
    conversation_from_raw, import_step, is_bare_list, message_from_raw, message_text, records_for,
    ConversationRecords, ImportStep,
};
pub use models::{convo_key, msg_key, msg_prefix};
pub use models::{
    Conversation, ConvoCard, Message, RawContent, RawConversation, RawExport, RawMessage,
    SearchResponse, ThreadResponse,
};
pub use routes::{key_has_prefix, search_request, sort_by_created, DEFAULT_LIMIT};
pub use search::{IndexEntry, SearchIndex, SNIPPET_WIDTH};
pub use text::{floor_char, make_snippet};
