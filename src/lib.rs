pub mod context;
pub mod ignore_directives;
pub mod no_var;
pub mod source;
pub mod text;
