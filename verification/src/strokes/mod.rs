pub mod strokestyle;
