//! The commit rule of a DAG-based Byzantine fault tolerant consensus protocol:
//! election of leader slots, the direct and indirect decision rules, the
//! ordered batch decision over a DAG snapshot, and the synced-commit path.

pub mod block;
pub mod committee;
pub mod dag_state;
pub mod base_committer;
pub mod universal_committer;
pub mod lemmas;
