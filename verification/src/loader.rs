pub mod update;
pub mod loading;
pub mod batch;
pub mod load_task;
