pub mod hibou_process;
