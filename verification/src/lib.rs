//! Verified core of a Luau script manager: the registry of scripts, the cache
//! of loaded script environments, the event bus bookkeeping, and the
//! conversion of Luau data into engine values.
mod ahash_types;
mod cache;
mod call_result;
mod convert;
mod decimal;
mod event_bus;
mod from_table;
mod laws;
mod lua_table;
mod manager;
mod manifest;
mod registry;
mod test_state;

pub use cache::LuaTableCache;
pub use call_result::{CallResult, LuaScriptError};
pub use convert::{
    extract_sub_table, law_list_or_table, law_list_read_as_indexed_table, law_sub_table_entries,
    law_table_convertible, table_to_value,
    value_to_lua_table_value, LuaTableSnapshot, ScriptValue,
};
pub use event_bus::{Dispatch, EventBus, HandlerId, HandlerIdCounter};
pub use from_table::{
    expect_bool, expect_float, expect_int, expect_string, expect_table, nested, nested_error,
    take_list, take_optional, take_required, FromLuaTable,
};
pub use laws::{
    last_path, law_fresh_id_is_new_subscriber, law_invalidated_script_runs_again, law_last_registration_wins,
    law_lua_double_subscription,
    law_lua_subscribe_then_unsubscribe, law_registration_invalidates_redeclared,
    law_stored_module_is_found, law_subscribe_then_unsubscribe, law_subscribing_keeps_other_functions,
    law_unsubscribing_keeps_other_functions, law_subscribers_stay_distinct,
};
pub use lua_table::{debug_text, LuaTableValue, TableMap};
pub use manager::{
    declarations, finish_call, load_failure, plan_call, read_table, CallOutcome, FunctionSlot, LuaScriptManager,
    ModuleSource, TableRead,
};
pub use manifest::{Manifest, PackageMeta, ScriptEntry};
pub use registry::{ScriptId, ScriptMeta, ScriptRegistry};
pub use test_state::TestState;
