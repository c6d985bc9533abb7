pub mod object;
pub mod object_closure;
pub mod object_function;
pub mod object_manager;
pub mod object_native_function;
pub mod object_string;
pub mod object_struct;
pub mod object_trait;
pub mod object_upvalue;
