//! Analysis rules and the findings they report.
pub mod array_equals;
pub mod array_equals_stack;
pub mod autocloseable_not_closed;
pub mod bigdecimal_equals_call;
pub mod bigdecimal_from_double;
pub mod call_scan;
pub mod dead_code;
pub mod delete_on_exit_call;
pub mod deserialization_read_object_call;
pub mod empty_catch;
pub mod exception_cause_not_preserved;
pub mod executor_service_not_shutdown;
pub mod field_scan;
pub mod future_wait_while_holding_lock;
pub mod ineffective_equals;
pub mod insecure_api;
pub mod interrupted_exception;
pub mod interrupted_exception_blocks;
pub mod location;
pub mod log4j2_unknown_array;
pub mod long_getlong_call;
pub mod mutate_unmodifiable_collection;
pub mod nullness;
pub mod prefer_enumset;
pub mod print_stack_trace;
pub mod record_array_field;
pub mod registry;
pub mod resource_lifecycle;
pub mod return_in_finally;
pub mod slf4j_illegal_passed_class;
pub mod slf4j_logger_should_be_final;
