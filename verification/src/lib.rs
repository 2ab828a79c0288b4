//! Generates declarative interface-description files from annotated Rust
//! sources: marked types and operations are collected into a registry,
//! ordered so that referenced types are emitted before the types that
//! reference them, and rendered as `foreign_class!` / `foreign_callback!` /
//! `foreign_enum!` blocks for a downstream bridge generator.

use vstd::prelude::*;

pub mod casing;
pub mod enums;
pub mod extract;
pub mod generator_lib;
pub mod text_formatter;
pub mod types_structs;

verus! {

/// The naming-case transform applied to emitted method aliases,
/// configured once per run.
#[derive(Copy, Clone)]
pub enum TypeCases {
    /// Method and variant names are left untouched (no alias clause).
    Default,
    /// Method names are converted to CamelCase.
    CamelCase,
    /// Method names are converted to snake_case.
    SnakeCase,
}

/// Output dialect: the two differ only in one extra prologue line.
pub enum Language {
    Java,
    Cpp,
}

/// The builder used from a build script to produce the interface file.
pub struct Generator {
    /// The naming-case transform applied to emitted aliases.
    pub type_case: TypeCases,
    /// The root folder that is recursively walked for annotated sources.
    pub scr_folder: String,
    /// The output dialect.
    pub language: Language,
}

impl Generator {
    /// Creates a new generator instance.
    ///
    /// `scr_folder` refers to the starting folder from which source files
    /// are gathered.
    pub fn new(type_case: TypeCases, language: Language, scr_folder: String) -> (r: Generator)
        ensures
            r == (Generator { type_case, scr_folder, language }),
    {
        Generator { type_case, scr_folder, language }
    }

    /// Turns the scanned declarations of a source tree into the complete
    /// interface-description text: the declarations are registered in
    /// order, the dependent records are sequenced so that referenced types
    /// precede referencing ones, and every block is rendered; the first
    /// fatal configuration error aborts the run.
    pub fn generate_interface(self, items: Vec<crate::extract::SourceItem>) -> (r: Result<
        String,
        crate::generator_lib::ConfigError,
    >)
        ensures
            match r {
                Result::Ok(text) => exists|
                    h0: crate::generator_lib::ItemsHolder,
                    h: crate::generator_lib::ItemsHolder,
                    rr: Result<(), crate::generator_lib::ConfigError>,
                |
                    {
                        &&& #[trigger] crate::generator_lib::registry_scan(h0, h, items@, rr)
                        &&& rr matches Result::Ok(_)
                        &&& h0.list@.len() == 0
                        &&& h0.enums_list@.len() == 0
                        &&& h0.final_list@.len() == 0
                        &&& text@ == crate::generator_lib::spec_output(
                            h,
                            self.language,
                            self.type_case,
                        )
                    },
                Result::Err(e) => exists|
                    h0: crate::generator_lib::ItemsHolder,
                    h: crate::generator_lib::ItemsHolder,
                |
                    {
                        &&& #[trigger] crate::generator_lib::registry_scan(
                            h0,
                            h,
                            items@,
                            Result::Err::<(), crate::generator_lib::ConfigError>(e),
                        )
                        &&& h0.list@.len() == 0
                        &&& h0.enums_list@.len() == 0
                        &&& h0.final_list@.len() == 0
                    },
            },
    {
        let mut holder = crate::generator_lib::ItemsHolder::new(items.len());
        let ghost h0 = holder;
        proof {
            assert(holder.wf());
        }
        let scan = holder.process_all(items);
        let ghost gscan = scan;
        let ghost gholder = holder;
        match scan {
            Result::Err(e) => {
                proof {
                    assert(crate::generator_lib::registry_scan(
                        h0,
                        gholder,
                        items@,
                        Result::Err::<(), crate::generator_lib::ConfigError>(e),
                    ));
                }
                Result::Err(e)
            }
            Result::Ok(_) => {
                let text = holder.generate_interface(self.language, self.type_case);
                proof {
                    assert(crate::generator_lib::registry_scan(h0, gholder, items@, gscan));
                    assert(gscan matches Result::Ok(_));
                }
                Result::Ok(text)
            }
        }
    }
}

} // verus!
