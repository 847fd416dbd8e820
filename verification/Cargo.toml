[package]
name = "pg_ros2"
version = "0.1.0"
edition = "2021"
publish = false

[dependencies]
serde_json = "=1.0.154"
rclrs = "=0.7.0"
