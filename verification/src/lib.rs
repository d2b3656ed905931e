//! Capabilities, providers and the tables that bind them, with every
//! resolution made by the compiler; worked out on a repository of named
//! records.
//!
//! A capability is a trait that a context is asked through, such as
//! [`HasItem`]. A provider implements the capability's provider-side trait,
//! such as [`ItemChecker`], for every context that has what the provider
//! needs. A table binds capabilities to providers, and a context names its
//! table. Each capability carries a `spec` function whose value the
//! bound provider fixes, so what a call on a context returns is known from
//! the bindings alone.
pub mod component;
pub mod delegation;
pub mod entity;
pub mod example;
pub mod items;
pub mod membership;
pub mod order;
pub mod repository;
pub mod text;

pub use crate::component::{DelegateComponent, HasComponents};
pub use crate::delegation::{delegate_example, CanDelegate, Delegate, DelegatedComponent};
pub use crate::entity::{Entity, HasName};
pub use crate::example::{ExampleComponent, ExampleDelegatee, ExampleInterface, Supertrait};
pub use crate::items::{CanGetDb, CanGetOrderedItems, GetDbFromMemory, ItemsComponent};
pub use crate::items::{ItemsGetter, OrderedItemsComponent, OrderedItemsGetter};
pub use crate::membership::{GetItem, HasItem, ItemCheckComponent, ItemChecker};
pub use crate::order::{sort_stably, Orderable};
pub use crate::repository::{Repository, RepositoryComponents};
pub use crate::text::{place, same_text, Placement};
