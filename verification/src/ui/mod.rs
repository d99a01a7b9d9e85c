pub mod appmenu;
